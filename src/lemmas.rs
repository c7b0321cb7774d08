use vstd::prelude::*;
use crate::problem::{count_sel, row_dot, value_sum, weight_sum, Problem};

verus! {

/// Flipping one flag changes a row sum by that position's entry.
pub proof fn lemma_row_dot_update(r: Seq<i32>, m: Seq<bool>, k: int, b: bool, len: int)
    requires
        0 <= k < m.len(),
        len <= m.len(),
        len <= r.len(),
    ensures
        k < len ==> row_dot(r, m.update(k, b), len) == row_dot(r, m, len) - (if m[k] {
            r[k] as int
        } else {
            0
        }) + (if b { r[k] as int } else { 0 }),
        k >= len ==> row_dot(r, m.update(k, b), len) == row_dot(r, m, len),
    decreases len,
{
    if len > 0 {
        lemma_row_dot_update(r, m, k, b, len - 1);
    }
}

pub proof fn lemma_weight_sum_update(w: Seq<u32>, m: Seq<bool>, k: int, b: bool, len: int)
    requires
        0 <= k < m.len(),
        len <= m.len(),
        len <= w.len(),
    ensures
        k < len ==> weight_sum(w, m.update(k, b), len) == weight_sum(w, m, len) - (if m[k] {
            w[k] as int
        } else {
            0
        }) + (if b { w[k] as int } else { 0 }),
        k >= len ==> weight_sum(w, m.update(k, b), len) == weight_sum(w, m, len),
    decreases len,
{
    if len > 0 {
        lemma_weight_sum_update(w, m, k, b, len - 1);
    }
}

pub proof fn lemma_count_update(m: Seq<bool>, k: int, len: int)
    requires
        0 <= k < len <= m.len(),
        !m[k],
    ensures
        count_sel(m.update(k, true), len) == count_sel(m, len) + 1,
    decreases len,
{
    if len - 1 > k {
        lemma_count_update(m, k, len - 1);
    } else {
        lemma_count_prefix_same(m, m.update(k, true), len - 1);
    }
}

proof fn lemma_count_prefix_same(m1: Seq<bool>, m2: Seq<bool>, len: int)
    requires
        0 <= len <= m1.len(),
        len <= m2.len(),
        forall|j: int| 0 <= j < len ==> m1[j] == m2[j],
    ensures
        count_sel(m1, len) == count_sel(m2, len),
    decreases len,
{
    if len > 0 {
        lemma_count_prefix_same(m1, m2, len - 1);
    }
}

pub proof fn lemma_count_bounds(m: Seq<bool>, len: int)
    requires
        0 <= len <= m.len(),
    ensures
        0 <= count_sel(m, len) <= len,
        count_sel(m, len) == len ==> forall|j: int| 0 <= j < len ==> #[trigger] m[j],
    decreases len,
{
    if len > 0 {
        lemma_count_bounds(m, len - 1);
    }
}

/// Selecting an unselected item `k` adds its own value plus its interactions
/// with the items already selected (for a symmetric matrix).
pub proof fn lemma_value_add(v: Seq<u32>, a: Seq<Seq<i32>>, m: Seq<bool>, k: int, len: int)
    requires
        0 <= k < m.len(),
        len <= m.len(),
        len <= v.len(),
        a.len() == m.len(),
        forall|i: int| 0 <= i < a.len() ==> #[trigger] a[i].len() == m.len(),
        forall|i: int, j: int|
            0 <= i < a.len() && 0 <= j < a.len() ==> #[trigger] a[i][j] == a[j][i],
        !m[k],
    ensures
        len <= k ==> value_sum(v, a, m.update(k, true), len) == value_sum(v, a, m, len),
        len > k ==> value_sum(v, a, m.update(k, true), len) == value_sum(v, a, m, len)
            + v[k] + row_dot(a[k], m, len),
    decreases len,
{
    let m2 = m.update(k, true);
    if len > 0 {
        let i = len - 1;
        lemma_value_add(v, a, m, k, i);
        lemma_row_dot_update(a[i], m, k, true, i);
        if i > k {
            assert(a[i][k] == a[k][i]);
        }
    }
}

/// A row sum is at most `len` entries of an `i32` in size.
pub proof fn lemma_row_dot_bound(r: Seq<i32>, m: Seq<bool>, len: int)
    requires
        0 <= len <= m.len(),
        len <= r.len(),
    ensures
        -len * 0x8000_0000 <= row_dot(r, m, len) <= len * 0x8000_0000,
    decreases len,
{
    if len > 0 {
        lemma_row_dot_bound(r, m, len - 1);
    }
}

pub proof fn lemma_weight_sum_bound(w: Seq<u32>, m: Seq<bool>, len: int)
    requires
        0 <= len <= m.len(),
        len <= w.len(),
    ensures
        0 <= weight_sum(w, m, len) <= len * 0x1_0000_0000,
    decreases len,
{
    if len > 0 {
        lemma_weight_sum_bound(w, m, len - 1);
    }
}

pub open spec fn value_bound(len: int) -> int {
    len * 0x1_0000_0000 + len * len * 0x8000_0000
}

pub proof fn lemma_value_sum_bound(v: Seq<u32>, a: Seq<Seq<i32>>, m: Seq<bool>, len: int)
    requires
        0 <= len <= m.len(),
        len <= v.len(),
        a.len() == m.len(),
        forall|i: int| 0 <= i < a.len() ==> #[trigger] a[i].len() == m.len(),
    ensures
        -value_bound(len) <= value_sum(v, a, m, len) <= value_bound(len),
    decreases len,
{
    if len > 0 {
        let i = len - 1;
        lemma_value_sum_bound(v, a, m, i);
        lemma_row_dot_bound(a[i], m, i);
        assert(value_bound(i) + 0x1_0000_0000 + i * 0x8000_0000 <= value_bound(len))
            by (nonlinear_arith)
            requires
                i == len - 1,
                i >= 0,
        ;
    }
}

/// Every total that a valid instance can produce fits comfortably in `i128`.
pub proof fn lemma_bounds(p: &Problem, m: Seq<bool>)
    requires
        p.wf(),
        p.is_mask(m),
    ensures
        -0x1_0000_0000_0000_0000_0000 <= p.total_value(m) <= 0x1_0000_0000_0000_0000_0000,
        0 <= p.total_weight(m) <= 0x1_0000_0000_0000_0000,
        forall|k: int|
            0 <= k < p.n() ==> -0x1_0000_0000_0000_0000 <= #[trigger] p.gain(k, m)
                <= 0x1_0000_0000_0000_0000,
{
    let n = p.n();
    lemma_value_sum_bound(p.values@, p.matrix(), m, n);
    lemma_weight_sum_bound(p.weights@, m, n);
    assert(value_bound(n) <= 0x1_0000_0000_0000_0000_0000) by (nonlinear_arith)
        requires
            0 <= n <= 16777216,
    ;
    assert(n * 0x1_0000_0000 <= 0x1_0000_0000_0000_0000) by (nonlinear_arith)
        requires
            0 <= n <= 16777216,
    ;
    assert forall|k: int| 0 <= k < n implies -0x1_0000_0000_0000_0000 <= #[trigger] p.gain(k, m)
        <= 0x1_0000_0000_0000_0000 by {
        lemma_row_dot_bound(p.matrix()[k], m, n);
        assert(n * 0x8000_0000 <= 0x1_0000_0000_0000_0000) by (nonlinear_arith)
            requires
                0 <= n <= 16777216,
        ;
    }
}

} // verus!
