use vstd::prelude::*;
use crate::lemmas::{lemma_bounds, lemma_row_dot_update, lemma_value_add, lemma_weight_sum_update};
use crate::problem::{count_sel, row_dot, value_sum, weight_sum, Problem};

verus! {

/// The working selection of one solve, with its running totals and the
/// per-item interaction sums against the selection.
pub struct SolutionState {
    /// `selected[i]` holds when item `i` is in the knapsack.
    pub selected: Vec<bool>,
    pub weight: u64,
    pub value: i128,
    /// `gains[k]`: sum of the interactions of the pair `{k, j}` over the selected `j`.
    pub gains: Vec<i128>,
}

proof fn lemma_nothing_selected(p: &Problem, m: Seq<bool>, len: int)
    requires
        p.wf(),
        p.is_mask(m),
        0 <= len <= p.n(),
        forall|i: int| 0 <= i < m.len() ==> !#[trigger] m[i],
    ensures
        value_sum(p.values@, p.matrix(), m, len) == 0,
        weight_sum(p.weights@, m, len) == 0,
        count_sel(m, len) == 0,
        forall|k: int| 0 <= k < p.n() ==> row_dot(#[trigger] p.matrix()[k], m, len) == 0,
    decreases len,
{
    if len > 0 {
        lemma_nothing_selected(p, m, len - 1);
    }
}

impl SolutionState {
    /// The state agrees with its selection: totals, feasibility and the
    /// interaction sums all match what the selection gives.
    pub open spec fn wf(&self, p: &Problem) -> bool {
        &&& p.wf()
        &&& p.is_mask(self.selected@)
        &&& self.gains@.len() == p.n()
        &&& self.weight == p.total_weight(self.selected@)
        &&& self.value == p.total_value(self.selected@)
        &&& forall|k: int| 0 <= k < p.n() ==> #[trigger] self.gains@[k] == p.gain(k, self.selected@)
        &&& p.feasible(self.selected@)
    }

    /// The state with nothing selected.
    pub fn empty(p: &Problem) -> (r: SolutionState)
        requires
            p.wf(),
        ensures
            r.wf(p),
            forall|i: int| 0 <= i < p.n() ==> !#[trigger] r.selected@[i],
            r.value == 0,
            r.weight == 0,
    {
        let n = p.values.len();
        let mut selected: Vec<bool> = Vec::new();
        let mut gains: Vec<i128> = Vec::new();
        let mut i: usize = 0;
        while i < n
            invariant
                n == p.n(),
                i <= n,
                selected@.len() == i,
                gains@.len() == i,
                forall|j: int| 0 <= j < i ==> !#[trigger] selected@[j],
                forall|j: int| 0 <= j < i ==> #[trigger] gains@[j] == 0,
            decreases n - i,
        {
            selected.push(false);
            gains.push(0);
            i = i + 1;
        }
        proof {
            lemma_nothing_selected(p, selected@, p.n());
        }
        SolutionState { selected, weight: 0, value: 0, gains }
    }

    /// Puts the unselected item `k` into the knapsack.
    pub fn add_item(&mut self, p: &Problem, k: usize)
        requires
            old(self).wf(p),
            k < p.n(),
            !old(self).selected@[k as int],
            old(self).weight + p.weights@[k as int] <= p.max_weight,
        ensures
            final(self).wf(p),
            final(self).selected@ == old(self).selected@.update(k as int, true),
            final(self).weight == old(self).weight + p.weights@[k as int],
            final(self).value == old(self).value + p.values@[k as int] + old(self).gains@[k as int],
            forall|j: int| 0 <= j < p.n() ==> #[trigger] final(self).gains@[j] == old(self).gains@[j]
                + p.matrix()[j][k as int],
    {
        let ghost m = self.selected@;
        let ghost m2 = m.update(k as int, true);
        let ghost g0 = self.gains@;
        let n = p.values.len();
        proof {
            lemma_value_add(p.values@, p.matrix(), m, k as int, p.n());
            lemma_weight_sum_update(p.weights@, m, k as int, true, p.n());
            lemma_bounds(p, m);
            lemma_bounds(p, m2);
        }
        self.selected.set(k, true);
        self.weight = self.weight + p.weights[k] as u64;
        self.value = self.value + p.values[k] as i128 + self.gains[k];
        let mut j: usize = 0;
        while j < n
            invariant
                n == p.n(),
                p.wf(),
                k < n,
                j <= n,
                self.gains@.len() == n,
                forall|x: int| 0 <= x < j ==> #[trigger] self.gains@[x] == p.gain(x, m2),
                forall|x: int| j <= x < n ==> #[trigger] self.gains@[x] == p.gain(x, m),
                forall|x: int| 0 <= x < p.n() ==> -0x1_0000_0000_0000_0000 <= #[trigger] p.gain(x, m)
                    <= 0x1_0000_0000_0000_0000,
                m2 == m.update(k as int, true),
                forall|x: int| 0 <= x < j ==> #[trigger] self.gains@[x] == g0[x] + p.matrix()[x][k as int],
                forall|x: int| j <= x < n ==> #[trigger] self.gains@[x] == g0[x],
                self.selected@ == m2,
                self.weight == p.total_weight(m2),
                self.value == p.total_value(m2),
                p.feasible(m2),
                !m[k as int],
                m.len() == n,
            decreases n - j,
        {
            proof {
                lemma_row_dot_update(p.matrix()[j as int], m, k as int, true, p.n());
            }
            let g = self.gains[j] + p.pair(j, k) as i128;
            self.gains.set(j, g);
            j = j + 1;
        }
    }

    /// Takes the selected item `k` out of the knapsack.
    pub fn remove_item(&mut self, p: &Problem, k: usize)
        requires
            old(self).wf(p),
            k < p.n(),
            old(self).selected@[k as int],
        ensures
            final(self).wf(p),
            final(self).selected@ == old(self).selected@.update(k as int, false),
            final(self).weight == old(self).weight - p.weights@[k as int],
            final(self).value == old(self).value - (p.values@[k as int] + old(self).gains@[k as int]
                - p.matrix()[k as int][k as int]),
            forall|j: int| 0 <= j < p.n() ==> #[trigger] final(self).gains@[j] == old(self).gains@[j]
                - p.matrix()[j][k as int],
    {
        let ghost m = self.selected@;
        let ghost m2 = m.update(k as int, false);
        let ghost g0 = self.gains@;
        let n = p.values.len();
        proof {
            assert(m2.update(k as int, true) =~= m);
            lemma_value_add(p.values@, p.matrix(), m2, k as int, p.n());
            lemma_row_dot_update(p.matrix()[k as int], m, k as int, false, p.n());
            lemma_weight_sum_update(p.weights@, m, k as int, false, p.n());
            lemma_bounds(p, m);
            lemma_bounds(p, m2);
        }
        self.selected.set(k, false);
        self.weight = self.weight - p.weights[k] as u64;
        self.value = self.value - (p.values[k] as i128 + self.gains[k] - p.pair(k, k) as i128);
        let mut j: usize = 0;
        while j < n
            invariant
                n == p.n(),
                p.wf(),
                k < n,
                j <= n,
                self.gains@.len() == n,
                forall|x: int| 0 <= x < j ==> #[trigger] self.gains@[x] == p.gain(x, m2),
                forall|x: int| j <= x < n ==> #[trigger] self.gains@[x] == p.gain(x, m),
                forall|x: int| 0 <= x < p.n() ==> -0x1_0000_0000_0000_0000 <= #[trigger] p.gain(x, m)
                    <= 0x1_0000_0000_0000_0000,
                m2 == m.update(k as int, false),
                forall|x: int| 0 <= x < j ==> #[trigger] self.gains@[x] == g0[x] - p.matrix()[x][k as int],
                forall|x: int| j <= x < n ==> #[trigger] self.gains@[x] == g0[x],
                self.selected@ == m2,
                self.weight == p.total_weight(m2),
                self.value == p.total_value(m2),
                p.feasible(m2),
                m[k as int],
                m.len() == n,
            decreases n - j,
        {
            proof {
                lemma_row_dot_update(p.matrix()[j as int], m, k as int, false, p.n());
            }
            let g = self.gains[j] - p.pair(j, k) as i128;
            self.gains.set(j, g);
            j = j + 1;
        }
    }

    /// The selected item indices, in increasing order.
    pub fn selection(&self) -> (r: Vec<usize>)
        ensures
            forall|a: int, b: int| 0 <= a < b < r@.len() ==> r@[a] < r@[b],
            forall|x: int| 0 <= x < r@.len() ==> (r@[x] as int) < self.selected@.len()
                && self.selected@[r@[x] as int],
            forall|i: int| 0 <= i < self.selected@.len() && #[trigger] self.selected@[i] ==> r@.contains(
                i as usize),
    {
        let n = self.selected.len();
        let mut r: Vec<usize> = Vec::new();
        let mut i: usize = 0;
        while i < n
            invariant
                n == self.selected@.len(),
                i <= n,
                forall|a: int, b: int| 0 <= a < b < r@.len() ==> r@[a] < r@[b],
                forall|x: int| 0 <= x < r@.len() ==> r@[x] < i && self.selected@[r@[x] as int],
                forall|j: int| 0 <= j < i && #[trigger] self.selected@[j] ==> r@.contains(j as usize),
            decreases n - i,
        {
            if self.selected[i] {
                let ghost r0 = r@;
                r.push(i);
                assert(r@[r@.len() - 1] == i);
                assert forall|j: int| 0 <= j < i && #[trigger] self.selected@[j] implies r@.contains(
                    j as usize) by {
                    let x = choose|x: int| 0 <= x < r0.len() && r0[x] == j as usize;
                    assert(r@[x] == j as usize);
                }
            }
            i = i + 1;
        }
        r
    }
}

} // verus!
