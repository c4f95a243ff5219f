//! Row-major layouts: products of dimensions, the multi-index of a linear
//! position, and the memory offset that strides give a multi-index.

use vstd::prelude::*;
use vstd::arithmetic::div_mod::*;
use vstd::arithmetic::mul::*;

verus! {

/// Product of the dimensions `s`.
pub open spec fn prod(s: Seq<usize>) -> int
    decreases s.len(),
{
    if s.len() == 0 {
        1
    } else {
        prod(s.drop_last()) * s.last()
    }
}

/// Every leading and every trailing run of dimensions has a product that
/// fits in `usize`.
pub open spec fn dims_fit(s: Seq<usize>) -> bool {
    prefixes_fit(s) && suffixes_fit(s)
}

/// Every leading run of dimensions has a product that fits in `usize`.
pub open spec fn prefixes_fit(s: Seq<usize>) -> bool {
    forall|k: int| 0 <= k <= s.len() ==> #[trigger] prod(s.take(k)) <= usize::MAX
}

/// Every trailing run of dimensions has a product that fits in `usize`.
pub open spec fn suffixes_fit(s: Seq<usize>) -> bool {
    forall|k: int| 0 <= k <= s.len() ==> #[trigger] prod(s.skip(k)) <= usize::MAX
}

/// The product of one dimension is that dimension.
pub proof fn lemma_prod_single(x: usize)
    ensures
        prod(seq![x]) == x as int,
{
    assert(seq![x].drop_last() =~= Seq::<usize>::empty());
    assert(prod(Seq::<usize>::empty()) == 1);
    assert(seq![x].last() == x);
    assert(prod(seq![x]) == prod(seq![x].drop_last()) * (seq![x].last() as int));
}

/// The multi-index of linear position `p` in row-major order: the last axis
/// varies fastest.
pub open spec fn digits(p: int, s: Seq<usize>) -> Seq<int>
    decreases s.len(),
{
    if s.len() == 0 {
        Seq::empty()
    } else {
        digits(p / (s.last() as int), s.drop_last()).push(p % (s.last() as int))
    }
}

/// The linear row-major position of multi-index `idx` in shape `s`.
pub open spec fn rank(idx: Seq<int>, s: Seq<usize>) -> int
    decreases idx.len(),
{
    if idx.len() == 0 || s.len() == 0 {
        0
    } else {
        rank(idx.drop_last(), s.drop_last()) * s.last() + idx.last()
    }
}

/// `idx` is a multi-index within shape `s`.
pub open spec fn is_index(idx: Seq<int>, s: Seq<usize>) -> bool {
    &&& idx.len() == s.len()
    &&& forall|k: int| 0 <= k < s.len() ==> 0 <= #[trigger] idx[k] < s[k]
}

/// The memory offset of multi-index `idx` under strides `st`: the sum of
/// each index times its stride.
pub open spec fn offset(idx: Seq<int>, st: Seq<usize>) -> int
    decreases idx.len(),
{
    if idx.len() == 0 || st.len() == 0 {
        0
    } else {
        offset(idx.drop_last(), st.drop_last()) + idx.last() * st.last()
    }
}

/// The memory offset of the element at logical row-major position `p`.
pub open spec fn position(p: int, s: Seq<usize>, st: Seq<usize>) -> int {
    offset(digits(p, s), st)
}

/// Every logical element of shape `s` under strides `st` lies below `len`.
pub open spec fn strides_in_bounds(s: Seq<usize>, st: Seq<usize>, len: int) -> bool {
    forall|p: int| 0 <= p < prod(s) ==> #[trigger] position(p, s, st) < len
}

/// The contiguity scan from the innermost axis outwards: axes of extent at
/// most 1 are skipped, every other axis must have stride `e`, the product of
/// the extents already passed. `None` when that product overflows `usize`.
pub open spec fn contig_scan(s: Seq<usize>, st: Seq<usize>, e: int) -> Option<bool>
    decreases s.len(),
{
    if s.len() == 0 || st.len() == 0 {
        Some(true)
    } else if s.last() <= 1 {
        contig_scan(s.drop_last(), st.drop_last(), e)
    } else if st.last() != e {
        Some(false)
    } else if e * s.last() > usize::MAX {
        None
    } else {
        contig_scan(s.drop_last(), st.drop_last(), e * s.last())
    }
}

/// Strides `st` lay out shape `s` densely in row-major order (axes of extent
/// at most 1 may have any stride).
pub open spec fn is_contiguous_layout(s: Seq<usize>, st: Seq<usize>) -> bool {
    contig_scan(s, st, 1) == Some(true)
}

/// The row-major strides of shape `s`: each axis steps over the product of
/// the extents after it.
pub open spec fn row_major(s: Seq<usize>) -> Seq<usize> {
    Seq::new(s.len(), |i: int| prod(s.skip(i + 1)) as usize)
}

pub proof fn lemma_prod_nonneg(s: Seq<usize>)
    ensures
        prod(s) >= 0,
    decreases s.len(),
{
    if s.len() > 0 {
        lemma_prod_nonneg(s.drop_last());
        lemma_mul_nonnegative(prod(s.drop_last()), s.last() as int);
    }
}

/// The product of a concatenation is the product of the products.
pub proof fn lemma_prod_concat(a: Seq<usize>, b: Seq<usize>)
    ensures
        prod(a + b) == prod(a) * prod(b),
    decreases b.len(),
{
    if b.len() == 0 {
        assert(a + b =~= a);
    } else {
        assert((a + b).drop_last() =~= a + b.drop_last());
        lemma_prod_concat(a, b.drop_last());
        lemma_mul_is_associative(prod(a), prod(b.drop_last()), b.last() as int);
    }
}

/// The multi-index of a position within the shape is a valid index whose
/// rank is that position.
pub proof fn lemma_digits(p: int, s: Seq<usize>)
    requires
        0 <= p < prod(s),
    ensures
        is_index(digits(p, s), s),
        rank(digits(p, s), s) == p,
    decreases s.len(),
{
    if s.len() > 0 {
        let l = s.last() as int;
        let s2 = s.drop_last();
        lemma_prod_nonneg(s2);
        if l == 0 {
            assert(prod(s2) * l == 0) by (nonlinear_arith)
                requires
                    l == 0,
            ;
        }
        assert(l > 0);
        lemma_mul_is_commutative(prod(s2), l);
        lemma_multiply_divide_lt(p, l, prod(s2));
        lemma_div_pos_is_pos(p, l);
        lemma_digits(p / l, s2);
        lemma_mod_pos_bound(p, l);
        lemma_fundamental_div_mod(p, l);
        let d = digits(p, s);
        assert(d.drop_last() =~= digits(p / l, s2));
        assert forall|k: int| 0 <= k < s.len() implies 0 <= #[trigger] d[k] < s[k] by {
            if k < s.len() - 1 {
                assert(d[k] == digits(p / l, s2)[k]);
            }
        }
        lemma_mul_is_commutative(p / l, l);
    }
}

/// A valid multi-index has a rank within the shape, and its digits give it back.
pub proof fn lemma_rank(idx: Seq<int>, s: Seq<usize>)
    requires
        is_index(idx, s),
    ensures
        0 <= rank(idx, s) < prod(s),
        digits(rank(idx, s), s) == idx,
    decreases s.len(),
{
    if s.len() == 0 {
        assert(idx =~= Seq::<int>::empty());
    } else {
        let l = s.last() as int;
        let s2 = s.drop_last();
        let i2 = idx.drop_last();
        assert(is_index(i2, s2)) by {
            assert forall|k: int| 0 <= k < s2.len() implies 0 <= #[trigger] i2[k] < s2[k] by {
                assert(i2[k] == idx[k]);
            }
        }
        lemma_rank(i2, s2);
        let r2 = rank(i2, s2);
        assert(0 <= idx.last() < l) by {
            assert(idx.last() == idx[s.len() - 1]);
        }
        assert(r2 * l + idx.last() < prod(s2) * l) by (nonlinear_arith)
            requires
                0 <= r2 < prod(s2),
                0 <= idx.last() < l,
        ;
        lemma_mul_nonnegative(r2, l);
        lemma_fundamental_div_mod_converse(rank(idx, s), l, r2, idx.last());
        assert(digits(rank(idx, s), s) =~= idx);
    }
}

/// The rank of the all-maximum multi-index is the last position.
pub proof fn lemma_rank_max(idx: Seq<int>, s: Seq<usize>)
    requires
        idx.len() == s.len(),
        forall|k: int| 0 <= k < s.len() ==> #[trigger] s[k] >= 1,
        forall|k: int| 0 <= k < s.len() ==> #[trigger] idx[k] == s[k] - 1,
    ensures
        rank(idx, s) == prod(s) - 1,
    decreases s.len(),
{
    if s.len() > 0 {
        let s2 = s.drop_last();
        let i2 = idx.drop_last();
        assert forall|k: int| 0 <= k < s2.len() implies #[trigger] s2[k] >= 1 by {
            assert(s2[k] == s[k]);
        }
        assert forall|k: int| 0 <= k < s2.len() implies #[trigger] i2[k] == s2[k] - 1 by {
            assert(i2[k] == idx[k]);
            assert(s2[k] == s[k]);
        }
        lemma_rank_max(i2, s2);
        let l = s.last() as int;
        assert(idx.last() == l - 1) by {
            assert(idx.last() == idx[s.len() - 1]);
        }
        assert((prod(s2) - 1) * l + (l - 1) == prod(s2) * l - 1) by (nonlinear_arith);
    }
}

/// The multi-index after an odometer step at axis `d`: axis `d` goes up by
/// one, every axis after it (all at their maximum) goes back to zero.
pub open spec fn stepped(idx: Seq<int>, d: int) -> Seq<int> {
    Seq::new(idx.len(), |k: int| if k < d { idx[k] } else if k == d { idx[k] + 1 } else { 0 })
}

/// An odometer step moves to the next rank.
pub proof fn lemma_step(idx: Seq<int>, s: Seq<usize>, d: int)
    requires
        is_index(idx, s),
        0 <= d < s.len(),
        idx[d] + 1 < s[d],
        forall|k: int| d < k < s.len() ==> #[trigger] idx[k] == s[k] - 1,
    ensures
        is_index(stepped(idx, d), s),
        rank(stepped(idx, d), s) == rank(idx, s) + 1,
    decreases s.len(),
{
    let n = s.len() as int;
    let new = stepped(idx, d);
    assert forall|k: int| 0 <= k < s.len() implies 0 <= #[trigger] new[k] < s[k] by {
        if k > d {
            assert(idx[k] == s[k] - 1);
            assert(0 <= idx[k]);
        }
    }
    let s2 = s.drop_last();
    let i2 = idx.drop_last();
    assert(is_index(i2, s2)) by {
        assert forall|k: int| 0 <= k < s2.len() implies 0 <= #[trigger] i2[k] < s2[k] by {
            assert(i2[k] == idx[k]);
        }
    }
    if d == n - 1 {
        assert(new.drop_last() =~= i2);
        assert(new.last() == idx.last() + 1);
    } else {
        assert forall|k: int| d < k < s2.len() implies #[trigger] i2[k] == s2[k] - 1 by {
            assert(i2[k] == idx[k]);
        }
        lemma_step(i2, s2, d);
        assert(new.drop_last() =~= stepped(i2, d));
        let l = s.last() as int;
        assert(idx.last() == l - 1) by {
            assert(idx.last() == idx[n - 1]);
        }
        let r2 = rank(i2, s2);
        assert((r2 + 1) * l + 0 == r2 * l + (l - 1) + 1) by (nonlinear_arith);
    }
}

/// Accumulating index times stride over the first `k` axes.
pub proof fn lemma_offset_take(idx: Seq<int>, st: Seq<usize>, k: int)
    requires
        0 <= k < idx.len(),
        idx.len() == st.len(),
    ensures
        offset(idx.take(k + 1), st.take(k + 1)) == offset(idx.take(k), st.take(k)) + idx[k] * st[k],
{
    assert(idx.take(k + 1).drop_last() =~= idx.take(k));
    assert(st.take(k + 1).drop_last() =~= st.take(k));
}

/// Offsets of valid multi-indices are sums of non-negative terms, so every
/// partial sum is at most the whole.
pub proof fn lemma_offset_prefix_le(idx: Seq<int>, st: Seq<usize>, k: int)
    requires
        0 <= k <= idx.len(),
        idx.len() == st.len(),
        forall|j: int| 0 <= j < idx.len() ==> #[trigger] idx[j] >= 0,
    ensures
        0 <= offset(idx.take(k), st.take(k)) <= offset(idx, st),
    decreases idx.len() - k,
{
    if k < idx.len() {
        lemma_offset_take(idx, st, k);
        lemma_mul_nonnegative(idx[k], st[k] as int);
        lemma_offset_prefix_le(idx, st, k + 1);
        let t = idx.take(k);
        assert forall|j: int| 0 <= j < t.len() implies #[trigger] t[j] >= 0 by {
            assert(t[j] == idx[j]);
        }
        lemma_offset_nonneg(t, st.take(k));
    } else {
        assert(idx.take(k) =~= idx);
        assert(st.take(k) =~= st);
        lemma_offset_nonneg(idx, st);
    }
}

pub proof fn lemma_offset_nonneg(idx: Seq<int>, st: Seq<usize>)
    requires
        forall|j: int| 0 <= j < idx.len() ==> #[trigger] idx[j] >= 0,
    ensures
        offset(idx, st) >= 0,
    decreases idx.len(),
{
    if idx.len() > 0 && st.len() > 0 {
        let i2 = idx.drop_last();
        assert forall|j: int| 0 <= j < i2.len() implies #[trigger] i2[j] >= 0 by {
            assert(i2[j] == idx[j]);
        }
        lemma_offset_nonneg(i2, st.drop_last());
        lemma_mul_nonnegative(idx.last(), st.last() as int);
    }
}

/// Under a contiguous layout the element at position `p` sits at offset
/// `e * p`.
pub proof fn lemma_contig_offset(s: Seq<usize>, st: Seq<usize>, e: int, p: int)
    requires
        s.len() == st.len(),
        contig_scan(s, st, e) == Some(true),
        0 <= p < prod(s),
    ensures
        offset(digits(p, s), st) == e * p,
    decreases s.len(),
{
    if s.len() > 0 {
        let l = s.last() as int;
        let s2 = s.drop_last();
        let st2 = st.drop_last();
        lemma_prod_nonneg(s2);
        if l == 0 {
            assert(prod(s2) * l == 0) by (nonlinear_arith)
                requires
                    l == 0,
            ;
        }
        lemma_mul_is_commutative(prod(s2), l);
        lemma_multiply_divide_lt(p, l, prod(s2));
        lemma_div_pos_is_pos(p, l);
        lemma_fundamental_div_mod(p, l);
        let d = digits(p, s);
        assert(d.drop_last() =~= digits(p / l, s2));
        lemma_mod_pos_bound(p, l);
        assert(offset(d, st) == offset(d.drop_last(), st2) + d.last() * st.last());
        assert(d.last() == p % l);
        if l == 1 {
            assert(contig_scan(s2, st2, e) == Some(true));
            lemma_contig_offset(s2, st2, e, p / l);
            assert(p % l == 0);
            assert(p / l == p);
            assert(d.last() * st.last() == 0) by (nonlinear_arith)
                requires
                    d.last() == 0,
            ;
        } else {
            assert(st.last() == e);
            assert(contig_scan(s2, st2, e * l) == Some(true));
            lemma_contig_offset(s2, st2, e * l, p / l);
            assert(e * l * (p / l) + (p % l) * e == e * (l * (p / l) + p % l)) by (nonlinear_arith);
        }
    } else {
        assert(p == 0);
        assert(e * p == 0) by (nonlinear_arith)
            requires
                p == 0,
        ;
    }
}

/// The entries of `axes` are distinct axes below `n`.
pub open spec fn distinct_in_range(axes: Seq<usize>, n: int) -> bool {
    &&& forall|k: int| 0 <= k < axes.len() ==> #[trigger] axes[k] < n
    &&& forall|i: int, j: int| 0 <= i < j < axes.len() ==> #[trigger] axes[i] != #[trigger] axes[j]
}

/// `s` with its entries taken in the order `axes`.
pub open spec fn permuted(s: Seq<usize>, axes: Seq<usize>) -> Seq<usize> {
    Seq::new(axes.len(), |k: int| s[axes[k] as int])
}

/// Taking one entry out divides the product by it.
pub proof fn lemma_prod_remove(s: Seq<usize>, a: int)
    requires
        0 <= a < s.len(),
    ensures
        prod(s) == prod(s.remove(a)) * s[a],
{
    let x = seq![s[a]];
    assert(s =~= s.take(a) + x + s.skip(a + 1));
    assert(s.remove(a) =~= s.take(a) + s.skip(a + 1));
    lemma_prod_concat(s.take(a) + x, s.skip(a + 1));
    lemma_prod_concat(s.take(a), x);
    lemma_prod_concat(s.take(a), s.skip(a + 1));
    assert(x.drop_last() =~= Seq::<usize>::empty());
    assert(prod(x.drop_last()) == 1);
    assert(prod(x) == s[a] as int);
    let p1 = prod(s.take(a));
    let p2 = prod(s.skip(a + 1));
    let v = s[a] as int;
    assert(p1 * v * p2 == p1 * p2 * v) by (nonlinear_arith);
}

/// Reordering the dimensions does not change their product.
pub proof fn lemma_prod_permute(s: Seq<usize>, axes: Seq<usize>)
    requires
        axes.len() == s.len(),
        distinct_in_range(axes, s.len() as int),
    ensures
        prod(permuted(s, axes)) == prod(s),
    decreases s.len(),
{
    let n = s.len() as int;
    if n == 0 {
        assert(permuted(s, axes) =~= Seq::<usize>::empty());
    } else {
        let a = axes.last() as int;
        assert(a == axes[n - 1]);
        let s2 = s.remove(a);
        let axes2 = Seq::new((n - 1) as nat, |k: int| if axes[k] > a { (axes[k] - 1) as usize } else { axes[k] });
        assert forall|k: int| 0 <= k < axes2.len() implies #[trigger] axes2[k] < n - 1 by {
            assert(axes[k] != axes[n - 1]);
            assert(axes[k] < n);
        }
        assert forall|i: int, j: int| 0 <= i < j < axes2.len() implies #[trigger] axes2[i] != #[trigger] axes2[j] by {
            assert(axes[i] != axes[j]);
            assert(axes[i] != axes[n - 1]);
            assert(axes[j] != axes[n - 1]);
        }
        lemma_prod_permute(s2, axes2);
        let t = permuted(s, axes);
        assert forall|k: int| 0 <= k < n - 1 implies #[trigger] permuted(s2, axes2)[k] == t.drop_last()[k] by {
            assert(axes[k] != axes[n - 1]);
            assert(axes[k] < n);
        }
        assert(permuted(s2, axes2) =~= t.drop_last());
        lemma_prod_remove(s, a);
    }
}

/// A positive product has only positive dimensions.
pub proof fn lemma_prod_positive(s: Seq<usize>)
    requires
        prod(s) > 0,
    ensures
        forall|k: int| 0 <= k < s.len() ==> #[trigger] s[k] > 0,
    decreases s.len(),
{
    if s.len() > 0 {
        let s2 = s.drop_last();
        lemma_prod_nonneg(s2);
        if s.last() == 0 {
            assert(prod(s2) * 0 == 0) by (nonlinear_arith);
        }
        if prod(s2) == 0 {
            assert(0 * (s.last() as int) == 0) by (nonlinear_arith);
        }
        lemma_prod_positive(s2);
        assert forall|k: int| 0 <= k < s.len() implies #[trigger] s[k] > 0 by {
            if k < s.len() - 1 {
                assert(s[k] == s2[k]);
            }
        }
    }
}

/// The all-zero multi-index is the first position of a non-empty shape.
pub proof fn lemma_zero_index(s: Seq<usize>)
    requires
        prod(s) > 0,
    ensures
        is_index(Seq::new(s.len(), |_k: int| 0int), s),
        rank(Seq::new(s.len(), |_k: int| 0int), s) == 0,
    decreases s.len(),
{
    lemma_prod_positive(s);
    if s.len() > 0 {
        let s2 = s.drop_last();
        lemma_prod_nonneg(s2);
        if prod(s2) == 0 {
            assert(0 * (s.last() as int) == 0) by (nonlinear_arith);
        }
        lemma_zero_index(s2);
        let z = Seq::new(s.len(), |_k: int| 0int);
        assert(z.drop_last() =~= Seq::new(s2.len(), |_k: int| 0int));
    }
}

/// The product of `s` splits at any axis into its leading and trailing parts.
pub proof fn lemma_prod_split(s: Seq<usize>, k: int)
    requires
        0 <= k <= s.len(),
    ensures
        prod(s) == prod(s.take(k)) * prod(s.skip(k)),
{
    assert(s =~= s.take(k) + s.skip(k));
    lemma_prod_concat(s.take(k), s.skip(k));
}

/// Strides that step over `e` times the extents after each axis lay a shape
/// without empty axes out contiguously from stride `e` on.
proof fn lemma_scan_scaled_row_major(s: Seq<usize>, st: Seq<usize>, e: int)
    requires
        s.len() == st.len(),
        e >= 1,
        prod(s) > 0,
        e * prod(s) <= usize::MAX,
        forall|i: int| 0 <= i < s.len() ==> #[trigger] st[i] == e * prod(s.skip(i + 1)),
    ensures
        contig_scan(s, st, e) == Some(true),
    decreases s.len(),
{
    if s.len() > 0 {
        let n = s.len() as int;
        let l = s.last() as int;
        let s2 = s.drop_last();
        let st2 = st.drop_last();
        lemma_prod_positive(s);
        lemma_prod_nonneg(s2);
        assert(l >= 1);
        if prod(s2) == 0 {
            assert(0 * l == 0) by (nonlinear_arith);
        }
        assert(prod(s2) >= 1);
        assert(s.skip(n) =~= Seq::<usize>::empty());
        assert(st.last() == e * prod(s.skip(n)));
        assert(st.last() == e);
        assert forall|i: int| 0 <= i < s2.len() implies prod(#[trigger] s.skip(i + 1)) == prod(s2.skip(i + 1)) * l by {
            assert(s.skip(i + 1).drop_last() =~= s2.skip(i + 1));
        }
        if l == 1 {
            assert forall|i: int| 0 <= i < s2.len() implies #[trigger] st2[i] == e * prod(s2.skip(i + 1)) by {
                assert(st2[i] == st[i]);
                assert(prod(s.skip(i + 1)) == prod(s2.skip(i + 1)) * l);
            }
            assert(prod(s) == prod(s2) * l);
            assert(prod(s2) * l == prod(s2)) by (nonlinear_arith)
                requires
                    l == 1,
            ;
            lemma_scan_scaled_row_major(s2, st2, e);
        } else {
            let e2 = e * l;
            assert forall|i: int| 0 <= i < s2.len() implies #[trigger] st2[i] == e2 * prod(s2.skip(i + 1)) by {
                assert(st2[i] == st[i]);
                assert(prod(s.skip(i + 1)) == prod(s2.skip(i + 1)) * l);
                let q = prod(s2.skip(i + 1));
                assert(e * (q * l) == (e * l) * q) by (nonlinear_arith);
            }
            let p2 = prod(s2);
            assert(prod(s) == p2 * l);
            assert(e * (p2 * l) == (e * l) * p2) by (nonlinear_arith);
            assert(e * l <= (e * l) * p2) by (nonlinear_arith)
                requires
                    e >= 1,
                    l >= 1,
                    p2 >= 1,
            ;
            assert(e2 >= 1) by (nonlinear_arith)
                requires
                    e >= 1,
                    l >= 1,
                    e2 == e * l,
            ;
            lemma_scan_scaled_row_major(s2, st2, e2);
        }
    }
}

/// The row-major strides of a shape with no empty axis are a contiguous
/// layout of it.
pub proof fn lemma_row_major_contiguous(s: Seq<usize>)
    requires
        suffixes_fit(s),
        forall|i: int| 0 <= i < s.len() ==> #[trigger] s[i] >= 1,
    ensures
        is_contiguous_layout(s, row_major(s)),
{
    lemma_prod_all_positive(s);
    assert(s.skip(0) =~= s);
    assert(prod(s.skip(0)) <= usize::MAX);
    assert forall|i: int| 0 <= i < s.len() implies #[trigger] row_major(s)[i] == 1 * prod(s.skip(i + 1)) by {
        lemma_prod_nonneg(s.skip(i + 1));
        assert(prod(s.skip(i + 1)) <= usize::MAX);
    }
    lemma_scan_scaled_row_major(s, row_major(s), 1);
}

/// A shape with no empty axis has a positive product.
pub proof fn lemma_prod_all_positive(s: Seq<usize>)
    requires
        forall|i: int| 0 <= i < s.len() ==> #[trigger] s[i] >= 1,
    ensures
        prod(s) >= 1,
    decreases s.len(),
{
    if s.len() > 0 {
        let s2 = s.drop_last();
        assert forall|i: int| 0 <= i < s2.len() implies #[trigger] s2[i] >= 1 by {
            assert(s2[i] == s[i]);
        }
        lemma_prod_all_positive(s2);
        let p = prod(s2);
        let l = s.last() as int;
        assert(s.last() == s[s.len() - 1]);
        assert(p * l >= 1) by (nonlinear_arith)
            requires
                p >= 1,
                l >= 1,
        ;
    }
}

/// The multi-index `idx` with its entries taken in the order `axes`.
pub open spec fn permuted_index(idx: Seq<int>, axes: Seq<usize>) -> Seq<int> {
    Seq::new(axes.len(), |k: int| idx[axes[k] as int])
}

/// The offset of a concatenated multi-index is the sum of the offsets.
proof fn lemma_offset_concat(i1: Seq<int>, s1: Seq<usize>, i2: Seq<int>, s2: Seq<usize>)
    requires
        i1.len() == s1.len(),
        i2.len() == s2.len(),
    ensures
        offset(i1 + i2, s1 + s2) == offset(i1, s1) + offset(i2, s2),
    decreases i2.len(),
{
    if i2.len() == 0 {
        assert(i1 + i2 =~= i1);
        assert(s1 + s2 =~= s1);
    } else {
        assert((i1 + i2).drop_last() =~= i1 + i2.drop_last());
        assert((s1 + s2).drop_last() =~= s1 + s2.drop_last());
        lemma_offset_concat(i1, s1, i2.drop_last(), s2.drop_last());
    }
}

/// Taking one axis out of a multi-index and its strides takes its term out
/// of the offset.
proof fn lemma_offset_remove(idx: Seq<int>, st: Seq<usize>, a: int)
    requires
        idx.len() == st.len(),
        0 <= a < idx.len(),
    ensures
        offset(idx, st) == offset(idx.remove(a), st.remove(a)) + idx[a] * st[a],
{
    let xi = seq![idx[a]];
    let xs = seq![st[a]];
    assert(idx =~= idx.take(a) + xi + idx.skip(a + 1));
    assert(st =~= st.take(a) + xs + st.skip(a + 1));
    assert(idx.remove(a) =~= idx.take(a) + idx.skip(a + 1));
    assert(st.remove(a) =~= st.take(a) + st.skip(a + 1));
    lemma_offset_concat(idx.take(a) + xi, st.take(a) + xs, idx.skip(a + 1), st.skip(a + 1));
    lemma_offset_concat(idx.take(a), st.take(a), xi, xs);
    lemma_offset_concat(idx.take(a), st.take(a), idx.skip(a + 1), st.skip(a + 1));
    assert(xi.drop_last() =~= Seq::<int>::empty());
    assert(xs.drop_last() =~= Seq::<usize>::empty());
    assert(offset(xi.drop_last(), xs.drop_last()) == 0);
    assert(xi.last() == idx[a]);
    assert(xs.last() == st[a]);
    assert(offset(xi, xs) == offset(xi.drop_last(), xs.drop_last()) + xi.last() * xs.last());
    assert(offset(xi, xs) == idx[a] * st[a]);
}

/// Reading a permuted multi-index through the permuted strides reaches the
/// same offset as the original multi-index through the original strides.
pub proof fn lemma_offset_permute(idx: Seq<int>, st: Seq<usize>, axes: Seq<usize>)
    requires
        idx.len() == st.len(),
        axes.len() == st.len(),
        distinct_in_range(axes, st.len() as int),
    ensures
        offset(permuted_index(idx, axes), permuted(st, axes)) == offset(idx, st),
    decreases st.len(),
{
    let n = st.len() as int;
    if n == 0 {
        assert(permuted_index(idx, axes) =~= Seq::<int>::empty());
    } else {
        let a = axes.last() as int;
        assert(a == axes[n - 1]);
        let axes2 = Seq::new((n - 1) as nat, |k: int| if axes[k] > a { (axes[k] - 1) as usize } else { axes[k] });
        assert forall|k: int| 0 <= k < axes2.len() implies #[trigger] axes2[k] < n - 1 by {
            assert(axes[k] != axes[n - 1]);
            assert(axes[k] < n);
        }
        assert forall|i: int, j: int| 0 <= i < j < axes2.len() implies #[trigger] axes2[i] != #[trigger] axes2[j] by {
            assert(axes[i] != axes[j]);
            assert(axes[i] != axes[n - 1]);
            assert(axes[j] != axes[n - 1]);
        }
        lemma_offset_permute(idx.remove(a), st.remove(a), axes2);
        let pi = permuted_index(idx, axes);
        let ps = permuted(st, axes);
        assert forall|k: int| 0 <= k < n - 1 implies #[trigger] permuted_index(idx.remove(a), axes2)[k] == pi.drop_last()[k] by {
            assert(axes[k] != axes[n - 1]);
            assert(axes[k] < n);
        }
        assert forall|k: int| 0 <= k < n - 1 implies #[trigger] permuted(st.remove(a), axes2)[k] == ps.drop_last()[k] by {
            assert(axes[k] != axes[n - 1]);
            assert(axes[k] < n);
        }
        assert(permuted_index(idx.remove(a), axes2) =~= pi.drop_last());
        assert(permuted(st.remove(a), axes2) =~= ps.drop_last());
        lemma_offset_remove(idx, st, a);
    }
}

/// A multi-index is within a shape exactly when its permutation is within
/// the permuted shape.
pub proof fn lemma_index_permute(idx: Seq<int>, s: Seq<usize>, axes: Seq<usize>)
    requires
        axes.len() == s.len(),
        distinct_in_range(axes, s.len() as int),
        is_index(idx, s),
    ensures
        is_index(permuted_index(idx, axes), permuted(s, axes)),
{
}

/// Row-major strides: the last axis steps by one element, and each other
/// axis steps over the extent of the next axis times that axis's step.
pub proof fn lemma_row_major_steps(s: Seq<usize>)
    requires
        s.len() >= 1,
        suffixes_fit(s),
    ensures
        row_major(s).len() == s.len(),
        row_major(s)[s.len() - 1] == 1,
        forall|i: int| 0 <= i < s.len() - 1 ==> #[trigger] row_major(s)[i] == row_major(s)[i + 1] * s[i + 1],
{
    let n = s.len() as int;
    assert(s.skip(n) =~= Seq::<usize>::empty());
    assert forall|i: int| 0 <= i < n - 1 implies #[trigger] row_major(s)[i] == row_major(s)[i + 1] * s[i + 1] by {
        let t = s.skip(i + 1);
        assert(t =~= seq![s[i + 1]] + s.skip(i + 2));
        lemma_prod_concat(seq![s[i + 1]], s.skip(i + 2));
        lemma_prod_single(s[i + 1]);
        assert(prod(t) <= usize::MAX);
        assert(prod(s.skip(i + 2)) <= usize::MAX);
        lemma_prod_nonneg(t);
        lemma_prod_nonneg(s.skip(i + 2));
        assert(prod(seq![s[i + 1]]) * prod(s.skip(i + 2)) == prod(s.skip(i + 2)) * s[i + 1]) by (nonlinear_arith)
            requires
                prod(seq![s[i + 1]]) == s[i + 1] as int,
        ;
    }
}

} // verus!
