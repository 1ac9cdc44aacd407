//! Sums and products over sequences of integers, indexed from an axis to the
//! end, with the rearrangement facts that shapes and strides rely on.
use vstd::prelude::*;

verus! {

/// The sum of `t[j]`, `t[j + 1]`, … up to the end of `t`.
pub open spec fn sum_from(t: Seq<int>, j: int) -> int
    decreases t.len() - j,
{
    if j < 0 || j >= t.len() {
        0
    } else {
        t[j] + sum_from(t, j + 1)
    }
}

/// The product of `t[j]`, `t[j + 1]`, … up to the end of `t`; one when there
/// is nothing left to multiply.
pub open spec fn prod_from(t: Seq<int>, j: int) -> int
    decreases t.len() - j,
{
    if j < 0 || j >= t.len() {
        1
    } else {
        t[j] * prod_from(t, j + 1)
    }
}

/// The sum of all entries of `t`.
pub open spec fn sum(t: Seq<int>) -> int {
    sum_from(t, 0)
}

/// The product of all entries of `t`.
pub open spec fn product(t: Seq<int>) -> int {
    prod_from(t, 0)
}

/// `p` lists each of `0, …, p.len() - 1` exactly once.
pub open spec fn is_permutation(p: Seq<int>) -> bool {
    &&& forall|i: int| 0 <= i < p.len() ==> 0 <= #[trigger] p[i] < p.len()
    &&& forall|i: int, j: int| 0 <= i < j < p.len() ==> p[i] != p[j]
}

/// `t` read in the order that `p` gives: entry `i` is `t[p[i]]`.
pub open spec fn permuted(t: Seq<int>, p: Seq<int>) -> Seq<int> {
    Seq::new(p.len(), |i: int| t[p[i]])
}

/// A suffix sum depends only on the entries it covers.
pub proof fn lemma_sum_from_agree(a: Seq<int>, b: Seq<int>, j: int)
    requires
        a.len() == b.len(),
        0 <= j,
        forall|i: int| j <= i < a.len() ==> a[i] == b[i],
    ensures
        sum_from(a, j) == sum_from(b, j),
    decreases a.len() - j,
{
    if j < a.len() {
        lemma_sum_from_agree(a, b, j + 1);
    }
}

/// A suffix product depends only on the entries it covers.
pub proof fn lemma_prod_from_agree(a: Seq<int>, b: Seq<int>, j: int)
    requires
        a.len() == b.len(),
        0 <= j,
        forall|i: int| j <= i < a.len() ==> a[i] == b[i],
    ensures
        prod_from(a, j) == prod_from(b, j),
    decreases a.len() - j,
{
    if j < a.len() {
        lemma_prod_from_agree(a, b, j + 1);
    }
}

/// Entrywise smaller sequences have smaller suffix sums.
pub proof fn lemma_sum_from_le(a: Seq<int>, b: Seq<int>, j: int)
    requires
        a.len() == b.len(),
        0 <= j,
        forall|i: int| j <= i < a.len() ==> a[i] <= b[i],
    ensures
        sum_from(a, j) <= sum_from(b, j),
    decreases a.len() - j,
{
    if j < a.len() {
        lemma_sum_from_le(a, b, j + 1);
    }
}

/// Taking entry `a` out of `t` takes `t[a]` off every suffix sum that covered it
/// and shifts the others by one place.
pub proof fn lemma_sum_from_remove(t: Seq<int>, a: int, j: int)
    requires
        0 <= a < t.len(),
        0 <= j <= t.len(),
    ensures
        j <= a ==> sum_from(t.remove(a), j) == sum_from(t, j) - t[a],
        j > a ==> sum_from(t.remove(a), j - 1) == sum_from(t, j),
    decreases t.len() - j,
{
    let r = t.remove(a);
    if j < t.len() {
        lemma_sum_from_remove(t, a, j + 1);
        if j < a {
            assert(r[j] == t[j]);
        } else if j == a {
        } else {
            assert(r[j - 1] == t[j]);
        }
    }
}

/// Taking entry `a` out of `t` divides every suffix product that covered it
/// by `t[a]` and shifts the others by one place.
pub proof fn lemma_prod_from_remove(t: Seq<int>, a: int, j: int)
    requires
        0 <= a < t.len(),
        0 <= j <= t.len(),
    ensures
        j <= a ==> prod_from(t.remove(a), j) * t[a] == prod_from(t, j),
        j > a ==> prod_from(t.remove(a), j - 1) == prod_from(t, j),
    decreases t.len() - j,
{
    let r = t.remove(a);
    if j < t.len() {
        lemma_prod_from_remove(t, a, j + 1);
        if j < a {
            assert(r[j] == t[j]);
            assert(t[j] * prod_from(r, j + 1) * t[a] == t[j] * (prod_from(r, j + 1) * t[a]))
                by (nonlinear_arith);
        } else if j == a {
            assert(prod_from(r, j) * t[a] == t[a] * prod_from(r, j)) by (nonlinear_arith);
        } else {
            assert(r[j - 1] == t[j]);
        }
    }
}

/// Replacing entry `a` of `t` by `v` changes the sum by `v - t[a]`.
pub proof fn lemma_sum_update(t: Seq<int>, a: int, v: int)
    requires
        0 <= a < t.len(),
    ensures
        sum(t.update(a, v)) == sum(t) - t[a] + v,
{
    lemma_sum_from_remove(t, a, 0);
    lemma_sum_from_remove(t.update(a, v), a, 0);
    assert(t.update(a, v).remove(a) =~= t.remove(a));
}

/// Replacing entry `a` of `t` by `v` swaps the factor `t[a]` for `v`.
pub proof fn lemma_product_update(t: Seq<int>, a: int, v: int)
    requires
        0 <= a < t.len(),
    ensures
        product(t.update(a, v)) == product(t.remove(a)) * v,
        product(t) == product(t.remove(a)) * t[a],
{
    lemma_prod_from_remove(t, a, 0);
    lemma_prod_from_remove(t.update(a, v), a, 0);
    assert(t.update(a, v).remove(a) =~= t.remove(a));
}

/// A product of positive factors is positive.
pub proof fn lemma_prod_from_positive(t: Seq<int>, j: int)
    requires
        0 <= j,
        forall|i: int| j <= i < t.len() ==> t[i] > 0,
    ensures
        prod_from(t, j) > 0,
    decreases t.len() - j,
{
    if j < t.len() {
        lemma_prod_from_positive(t, j + 1);
        assert(t[j] * prod_from(t, j + 1) > 0) by (nonlinear_arith)
            requires
                t[j] > 0,
                prod_from(t, j + 1) > 0,
        ;
    }
}

/// A product of non-negative factors is non-negative, and it is positive only
/// if every factor is.
pub proof fn lemma_prod_from_nonnegative(t: Seq<int>, j: int)
    requires
        0 <= j,
        forall|i: int| j <= i < t.len() ==> t[i] >= 0,
    ensures
        prod_from(t, j) >= 0,
        prod_from(t, j) > 0 ==> forall|i: int| j <= i < t.len() ==> t[i] > 0,
    decreases t.len() - j,
{
    if j < t.len() {
        lemma_prod_from_nonnegative(t, j + 1);
        let rest = prod_from(t, j + 1);
        assert(t[j] * rest >= 0) by (nonlinear_arith)
            requires
                t[j] >= 0,
                rest >= 0,
        ;
        assert(t[j] * rest > 0 ==> t[j] > 0 && rest > 0) by (nonlinear_arith)
            requires
                t[j] >= 0,
                rest >= 0,
        ;
    }
}

/// With factors of at least one, a shorter suffix has the smaller product.
pub proof fn lemma_prod_from_monotonic(t: Seq<int>, j: int, k: int)
    requires
        0 <= j <= k,
        forall|i: int| j <= i < t.len() ==> t[i] >= 1,
    ensures
        1 <= prod_from(t, k) <= prod_from(t, j),
    decreases k - j,
{
    lemma_prod_from_positive(t, k);
    if j < k {
        lemma_prod_from_monotonic(t, j + 1, k);
        if j < t.len() {
            let rest = prod_from(t, j + 1);
            assert(t[j] * rest >= rest) by (nonlinear_arith)
                requires
                    t[j] >= 1,
                    rest >= 1,
            ;
        }
    }
}

/// Every value below `p.len()` occurs somewhere in a permutation `p`.
pub proof fn lemma_permutation_hits(p: Seq<int>, v: int) -> (j: int)
    requires
        is_permutation(p),
        0 <= v < p.len(),
    ensures
        0 <= j < p.len(),
        p[j] == v,
{
    let n = p.len() as int;
    let range = vstd::set_lib::set_int_range(0, n);
    vstd::set_lib::lemma_int_range(0, n);
    assert(p.no_duplicates());
    p.unique_seq_to_set();
    assert(p.to_set().subset_of(range)) by {
        assert forall|x: int| p.to_set().contains(x) implies range.contains(x) by {
            let i = choose|i: int| 0 <= i < p.len() && p[i] == x;
            assert(0 <= p[i] < n);
        }
    }
    vstd::set_lib::lemma_len_subset(p.to_set(), range);
    vstd::set_lib::lemma_subset_equality(p.to_set(), range);
    assert(range.contains(v));
    assert(p.to_set().contains(v));
    assert(p.contains(v));
    choose|j: int| 0 <= j < p.len() && p[j] == v
}

/// Dropping position `j` from a permutation, where `p[j]` is its largest
/// value, leaves a permutation of one value fewer.
pub proof fn lemma_permutation_remove_top(p: Seq<int>, j: int)
    requires
        is_permutation(p),
        0 <= j < p.len(),
        p[j] == p.len() - 1,
    ensures
        is_permutation(p.remove(j)),
{
    let q = p.remove(j);
    assert forall|i: int| 0 <= i < q.len() implies 0 <= #[trigger] q[i] < q.len() by {
        if i < j {
            assert(q[i] == p[i]);
            assert(p[i] != p[j]);
        } else {
            assert(q[i] == p[i + 1]);
            assert(p[j] != p[i + 1]);
        }
    }
    assert forall|a: int, b: int| 0 <= a < b < q.len() implies q[a] != q[b] by {
        let a2 = if a < j { a } else { a + 1 };
        let b2 = if b < j { b } else { b + 1 };
        assert(q[a] == p[a2] && q[b] == p[b2]);
        assert(p[a2] != p[b2]);
    }
}

/// A sum does not depend on the order of its terms.
pub proof fn lemma_sum_permuted(t: Seq<int>, p: Seq<int>)
    requires
        is_permutation(p),
        p.len() == t.len(),
    ensures
        sum(permuted(t, p)) == sum(t),
    decreases t.len(),
{
    let n = t.len() as int;
    if n > 0 {
        let j = lemma_permutation_hits(p, n - 1);
        let q = permuted(t, p);
        lemma_permutation_remove_top(p, j);
        lemma_sum_from_remove(q, j, 0);
        lemma_sum_from_remove(t, n - 1, 0);
        let fewer = t.remove(n - 1);
        let shorter = p.remove(j);
        assert(q.remove(j) =~= permuted(fewer, shorter)) by {
            assert forall|i: int| 0 <= i < n - 1 implies q.remove(j)[i] == permuted(fewer, shorter)[i] by {
                let i2 = if i < j { i } else { i + 1 };
                assert(shorter[i] == p[i2]);
                assert(p[i2] != p[j]);
                assert(fewer[shorter[i]] == t[p[i2]]);
            }
        }
        lemma_sum_permuted(fewer, shorter);
    } else {
        assert(permuted(t, p) =~= t);
    }
}

/// A product does not depend on the order of its factors.
pub proof fn lemma_product_permuted(t: Seq<int>, p: Seq<int>)
    requires
        is_permutation(p),
        p.len() == t.len(),
    ensures
        product(permuted(t, p)) == product(t),
    decreases t.len(),
{
    let n = t.len() as int;
    if n > 0 {
        let j = lemma_permutation_hits(p, n - 1);
        let q = permuted(t, p);
        lemma_permutation_remove_top(p, j);
        lemma_prod_from_remove(q, j, 0);
        lemma_prod_from_remove(t, n - 1, 0);
        let fewer = t.remove(n - 1);
        let shorter = p.remove(j);
        assert(q.remove(j) =~= permuted(fewer, shorter)) by {
            assert forall|i: int| 0 <= i < n - 1 implies q.remove(j)[i] == permuted(fewer, shorter)[i] by {
                let i2 = if i < j { i } else { i + 1 };
                assert(shorter[i] == p[i2]);
                assert(p[i2] != p[j]);
                assert(fewer[shorter[i]] == t[p[i2]]);
            }
        }
        lemma_product_permuted(fewer, shorter);
    } else {
        assert(permuted(t, p) =~= t);
    }
}

} // verus!
