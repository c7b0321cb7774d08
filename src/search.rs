use vstd::prelude::*;
use crate::lemmas::{lemma_bounds, lemma_row_dot_update, lemma_value_add, lemma_weight_sum_update};
use crate::problem::Problem;
use crate::state::SolutionState;

verus! {

/// The selection `m` with item `i` taken out and item `o` put in.
pub open spec fn swapped(m: Seq<bool>, i: int, o: int) -> Seq<bool> {
    m.update(i, false).update(o, true)
}

/// Selected `i` and unselected `o` of selection `m` can trade places within
/// the budget.
pub open spec fn fits_swap(p: &Problem, m: Seq<bool>, i: int, o: int) -> bool {
    &&& 0 <= i < p.n()
    &&& 0 <= o < p.n()
    &&& m[i]
    &&& !m[o]
    &&& p.total_weight(m) - p.weights@[i] + p.weights@[o] <= p.max_weight
}

/// `m2` is `m1` after a trade that raises the value, and no trade that fits
/// raises it more.
pub open spec fn is_best_swap_step(p: &Problem, m1: Seq<bool>, m2: Seq<bool>) -> bool {
    exists|i: int, o: int|
        {
            &&& fits_swap(p, m1, i, o)
            &&& m2 == #[trigger] swapped(m1, i, o)
            &&& p.total_value(m2) > p.total_value(m1)
            &&& forall|x: int, y: int|
                fits_swap(p, m1, x, y) ==> #[trigger] p.total_value(swapped(m1, x, y))
                    <= p.total_value(m2)
        }
}

/// `path` goes from selection to selection by best trades.
pub open spec fn is_best_swap_chain(p: &Problem, path: Seq<Seq<bool>>) -> bool {
    &&& path.len() > 0
    &&& forall|j: int| 0 <= j < path.len() - 1 ==> is_best_swap_step(p, #[trigger] path[j], path[j + 1])
}

impl SolutionState {
    /// Selected `i` and unselected `o` can trade places within the budget.
    pub open spec fn swap_fits(&self, p: &Problem, i: int, o: int) -> bool {
        &&& 0 <= i < p.n()
        &&& 0 <= o < p.n()
        &&& self.selected@[i]
        &&& !self.selected@[o]
        &&& self.weight - p.weights@[i] + p.weights@[o] <= p.max_weight
    }

    /// Change of value of that trade, read off the cached interaction sums.
    pub open spec fn swap_delta(&self, p: &Problem, i: int, o: int) -> int {
        (p.values@[o] - p.values@[i]) + (self.gains@[o] - p.matrix()[o][i]) - (self.gains@[i]
            - p.matrix()[i][i])
    }

    /// No trade of one selected item for one unselected item that fits the
    /// budget raises the total value.
    pub open spec fn is_swap_optimal(&self, p: &Problem) -> bool {
        forall|i: int, o: int|
            #[trigger] self.swap_fits(p, i, o) ==> p.total_value(swapped(self.selected@, i, o))
                <= p.total_value(self.selected@)
    }

    pub open spec fn pair_within(&self, p: &Problem, i: int, o: int, bound: int) -> bool {
        self.swap_fits(p, i, o) ==> self.swap_delta(p, i, o) <= bound
    }

    /// The cached delta is the true change of total value and weight.
    pub proof fn lemma_swap(&self, p: &Problem, i: int, o: int)
        requires
            self.wf(p),
            0 <= i < p.n(),
            0 <= o < p.n(),
            self.selected@[i],
            !self.selected@[o],
        ensures
            p.total_value(swapped(self.selected@, i, o)) == p.total_value(self.selected@)
                + self.swap_delta(p, i, o),
            p.total_weight(swapped(self.selected@, i, o)) == self.weight - p.weights@[i]
                + p.weights@[o],
    {
        let m = self.selected@;
        let mi = m.update(i, false);
        assert(mi.update(i, true) =~= m);
        lemma_value_add(p.values@, p.matrix(), mi, i, p.n());
        lemma_value_add(p.values@, p.matrix(), mi, o, p.n());
        lemma_row_dot_update(p.matrix()[i], m, i, false, p.n());
        lemma_row_dot_update(p.matrix()[o], m, i, false, p.n());
        lemma_weight_sum_update(p.weights@, m, i, false, p.n());
        lemma_weight_sum_update(p.weights@, mi, o, true, p.n());
    }

    /// The trade with the largest positive delta, or `None` when no trade
    /// that fits has a positive delta.
    pub fn best_swap(&self, p: &Problem) -> (r: Option<(usize, usize)>)
        requires
            self.wf(p),
        ensures
            r is None <==> forall|i: int, o: int| #[trigger]
                self.swap_fits(p, i, o) ==> self.swap_delta(p, i, o) <= 0,
            r matches Some((bi, bo)) ==> {
                &&& self.swap_fits(p, bi as int, bo as int)
                &&& self.swap_delta(p, bi as int, bo as int) > 0
                &&& forall|i: int, o: int| #[trigger]
                    self.swap_fits(p, i, o) ==> self.swap_delta(p, i, o) <= self.swap_delta(
                        p,
                        bi as int,
                        bo as int,
                    )
            },
    {
        let n = p.values.len();
        proof {
            lemma_bounds(p, self.selected@);
        }
        let mut best: Option<(usize, usize)> = None;
        let mut best_delta: i128 = 0;
        let mut i: usize = 0;
        while i < n
            invariant
                n == p.n(),
                self.wf(p),
                i <= n,
                forall|x: int| 0 <= x < p.n() ==> -0x1_0000_0000_0000_0000 <= #[trigger] p.gain(x, self.selected@)
                    <= 0x1_0000_0000_0000_0000,
                best_delta >= 0,
                best is None ==> best_delta == 0,
                best matches Some((bi, bo)) ==> self.swap_fits(p, bi as int, bo as int)
                    && self.swap_delta(p, bi as int, bo as int) == best_delta && best_delta > 0,
                forall|x: int, o: int|
                    0 <= x < i && 0 <= o < n ==> #[trigger] self.pair_within(p, x, o, best_delta as int),
            decreases n - i,
        {
            if self.selected[i] {
                let mut o: usize = 0;
                while o < n
                    invariant
                        n == p.n(),
                        self.wf(p),
                        i < n,
                        o <= n,
                        self.selected@[i as int],
                        forall|x: int| 0 <= x < p.n() ==> -0x1_0000_0000_0000_0000 <= #[trigger] p.gain(x, self.selected@)
                            <= 0x1_0000_0000_0000_0000,
                        best_delta >= 0,
                        best is None ==> best_delta == 0,
                        best matches Some((bi, bo)) ==> self.swap_fits(p, bi as int, bo as int)
                            && self.swap_delta(p, bi as int, bo as int) == best_delta && best_delta > 0,
                        forall|x: int, y: int|
                            0 <= x < i && 0 <= y < n ==> #[trigger] self.pair_within(p, x, y, best_delta as int),
                        forall|y: int| 0 <= y < o ==> #[trigger] self.pair_within(p, i as int, y, best_delta as int),
                    decreases n - o,
                {
                    if !self.selected[o] && self.weight + p.weights[o] as u64 <= p.max_weight as u64
                        + p.weights[i] as u64 {
                        let delta = (p.values[o] as i128 - p.values[i] as i128) + (self.gains[o]
                            - p.pair(o, i) as i128) - (self.gains[i]
                            - p.pair(i, i) as i128);
                        if delta > best_delta {
                            let ghost old_bd = best_delta;
                            best = Some((i, o));
                            best_delta = delta;
                            assert forall|x: int, y: int|
                                0 <= x < i && 0 <= y < n implies #[trigger] self.pair_within(
                                p,
                                x,
                                y,
                                best_delta as int,
                            ) by {
                                assert(self.pair_within(p, x, y, old_bd as int));
                            }
                            assert forall|y: int| 0 <= y < o implies #[trigger] self.pair_within(
                                p,
                                i as int,
                                y,
                                best_delta as int,
                            ) by {
                                assert(self.pair_within(p, i as int, y, old_bd as int));
                            }
                        }
                    }
                    assert(self.pair_within(p, i as int, o as int, best_delta as int));
                    o = o + 1;
                }
            }
            assert forall|y: int| 0 <= y < n implies #[trigger] self.pair_within(
                p,
                i as int,
                y,
                best_delta as int,
            ) by {}
            i = i + 1;
        }
        assert forall|x: int, y: int| #[trigger] self.swap_fits(p, x, y) implies self.swap_delta(
            p,
            x,
            y,
        ) <= best_delta by {
            assert(self.pair_within(p, x, y, best_delta as int));
        }
        best
    }

    /// Best-improvement local search: applies the best trade until no trade
    /// raises the value.
    pub fn swap_search(&mut self, p: &Problem)
        requires
            old(self).wf(p),
        ensures
            final(self).wf(p),
            final(self).is_swap_optimal(p),
            final(self).value >= old(self).value,
            final(self).value > old(self).value || *final(self) == *old(self),
            exists|path: Seq<Seq<bool>>|
                {
                    &&& is_best_swap_chain(p, path)
                    &&& path[0] == old(self).selected@
                    &&& #[trigger] path.last() == final(self).selected@
                },
    {
        let ghost s0 = *self;
        let ghost v0 = self.value;
        let ghost mut path: Seq<Seq<bool>> = seq![self.selected@];
        proof {
            lemma_bounds(p, self.selected@);
        }
        loop
            invariant
                self.wf(p),
                self.value >= v0,
                self.value > v0 || *self == s0,
                self.value <= 0x1_0000_0000_0000_0000_0000,
                is_best_swap_chain(p, path),
                path[0] == s0.selected@,
                path.last() == self.selected@,
            ensures
                is_best_swap_chain(p, path),
                path[0] == s0.selected@,
                path.last() == self.selected@,
                self.wf(p),
                self.is_swap_optimal(p),
                self.value >= v0,
                self.value > v0 || *self == s0,
            decreases 0x1_0000_0000_0000_0000_0000 - self.value,
        {
            match self.best_swap(p) {
                None => {
                    assert forall|i: int, o: int| #[trigger] self.swap_fits(p, i, o) implies p.total_value(
                        swapped(self.selected@, i, o),
                    ) <= p.total_value(self.selected@) by {
                        self.lemma_swap(p, i, o);
                    }
                    break;
                },
                Some((i, o)) => {
                    let ghost before = *self;
                    proof {
                        self.lemma_swap(p, i as int, o as int);
                    }
                    self.apply_swap(p, i, o);
                    proof {
                        let m1 = before.selected@;
                        let m2 = self.selected@;
                        assert forall|x: int, y: int| fits_swap(p, m1, x, y) implies #[trigger] p.total_value(
                            swapped(m1, x, y),
                        ) <= p.total_value(m2) by {
                            assert(before.swap_fits(p, x, y));
                            before.lemma_swap(p, x, y);
                        }
                        assert(fits_swap(p, m1, i as int, o as int));
                        assert(is_best_swap_step(p, m1, m2));
                        let path2 = path.push(m2);
                        assert forall|j: int| 0 <= j < path2.len() - 1 implies is_best_swap_step(
                            p,
                            #[trigger] path2[j],
                            path2[j + 1],
                        ) by {
                            if j < path.len() - 1 {
                                assert(path2[j] == path[j]);
                                assert(path2[j + 1] == path[j + 1]);
                            } else {
                                assert(path2[j] == m1);
                            }
                        }
                        path = path2;
                    }
                    proof {
                        lemma_bounds(p, self.selected@);
                    }
                },
            }
        }
    }

    /// Trades selected `i` for unselected `o`, updating every cached sum by
    /// the change of the two entries.
    pub fn apply_swap(&mut self, p: &Problem, i: usize, o: usize)
        requires
            old(self).wf(p),
            old(self).swap_fits(p, i as int, o as int),
        ensures
            final(self).wf(p),
            final(self).selected@ == swapped(old(self).selected@, i as int, o as int),
            final(self).value == old(self).value + old(self).swap_delta(p, i as int, o as int),
            forall|k: int| 0 <= k < p.n() ==> #[trigger] final(self).gains@[k] == old(self).gains@[k]
                + p.matrix()[k][o as int] - p.matrix()[k][i as int],
    {
        proof {
            self.lemma_swap(p, i as int, o as int);
        }
        self.remove_item(p, i);
        self.add_item(p, o);
    }
}

} // verus!
