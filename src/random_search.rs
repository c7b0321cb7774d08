use vstd::prelude::*;
use rand::rngs::SmallRng;
use rand::{Rng, SeedableRng};
use crate::lemmas::lemma_bounds;
use crate::problem::Problem;
use crate::search::swapped;
use crate::state::SolutionState;

verus! {

#[verifier::external_type_specification]
#[verifier::external_body]
pub struct ExSmallRng(SmallRng);

/// Relies on `SeedableRng::from_seed` for rand's `SmallRng`: a generator whose
/// stream is fixed by the seed.
#[verifier::external_body]
pub(crate) fn seeded_rng(seed: [u8; 32]) -> (r: SmallRng) {
    SmallRng::from_seed(seed)
}

/// Relies on `Rng::gen_range` over `0..n`: a value below `n` (it panics on an
/// empty range, which `requires` leaves out).
#[verifier::external_body]
pub(crate) fn draw_below(rng: &mut SmallRng, n: usize) -> (r: usize)
    requires
        n > 0,
    ensures
        r < n,
{
    rng.gen_range(0..n)
}

/// `m2` is `m1` with one item added, one removed, or one traded for another.
pub open spec fn one_move(m1: Seq<bool>, m2: Seq<bool>) -> bool {
    ||| exists|o: int| 0 <= o < m1.len() && !m1[o] && m2 == #[trigger] m1.update(o, true)
    ||| exists|i: int| 0 <= i < m1.len() && m1[i] && m2 == #[trigger] m1.update(i, false)
    ||| exists|i: int, o: int|
        0 <= i < m1.len() && 0 <= o < m1.len() && m1[i] && !m1[o] && m2 == #[trigger] swapped(
            m1,
            i,
            o,
        )
}

/// `path` goes from selection to selection by single moves, each within the
/// budget and each strictly raising the total value.
pub open spec fn is_move_chain(p: &Problem, path: Seq<Seq<bool>>) -> bool {
    &&& path.len() > 0
    &&& forall|j: int|
        0 <= j < path.len() - 1 ==> {
            &&& one_move(#[trigger] path[j], path[j + 1])
            &&& p.total_value(path[j + 1]) > p.total_value(path[j])
            &&& p.feasible(path[j + 1])
            &&& p.is_mask(path[j + 1])
        }
}

/// What one trial does to state `s`, given the drawn `action` and the drawn
/// positions `a` in `chosen` and `b` in `others`: `t` is the state after it.
pub open spec fn trial_outcome(
    p: &Problem,
    s: SolutionState,
    chosen: Seq<usize>,
    others: Seq<usize>,
    action: int,
    a: int,
    b: int,
    accepted: bool,
    t: SolutionState,
) -> bool {
    &&& t.wf(p)
    &&& accepted ==> t.value > s.value
    &&& !accepted ==> t == s
    &&& action == 0 && others.len() > 0 ==> {
        let o = others[b] as int;
        &&& accepted == (s.weight + p.weights@[o] <= p.max_weight && p.values@[o] + s.gains@[o] > 0)
        &&& accepted ==> t.selected@ == s.selected@.update(o, true)
    }
    &&& action == 1 && chosen.len() > 0 ==> {
        let i = chosen[a] as int;
        &&& accepted == (p.values@[i] + s.gains@[i] - p.matrix()[i][i] < 0)
        &&& accepted ==> t.selected@ == s.selected@.update(i, false)
    }
    &&& action == 2 && chosen.len() > 0 && others.len() > 0 ==> {
        let i = chosen[a] as int;
        let o = others[b] as int;
        &&& accepted == (s.swap_fits(p, i, o) && s.swap_delta(p, i, o) > 0)
        &&& accepted ==> t.selected@ == swapped(s.selected@, i, o)
    }
    &&& (action == 0 && others.len() == 0) || (action == 1 && chosen.len() == 0) || (action == 2
        && (chosen.len() == 0 || others.len() == 0)) ==> !accepted
}

/// Draws in range for the lists: a move kind below 3 and, where a list is
/// non-empty, a position in it.
pub open spec fn draws_in_range(chosen: Seq<usize>, others: Seq<usize>, action: int, a: int, b: int) -> bool {
    &&& 0 <= action < 3
    &&& chosen.len() > 0 ==> 0 <= a < chosen.len()
    &&& others.len() > 0 ==> 0 <= b < others.len()
}

impl SolutionState {
    /// Adds unselected `o` when it fits and its marginal gain is positive.
    pub fn try_add(&mut self, p: &Problem, o: usize) -> (accepted: bool)
        requires
            old(self).wf(p),
            o < p.n(),
            !old(self).selected@[o as int],
        ensures
            final(self).wf(p),
            accepted == (old(self).weight + p.weights@[o as int] <= p.max_weight && p.values@[o as int]
                + old(self).gains@[o as int] > 0),
            accepted ==> final(self).selected@ == old(self).selected@.update(o as int, true),
            accepted ==> final(self).value > old(self).value,
            !accepted ==> *final(self) == *old(self),
    {
        proof {
            lemma_bounds(p, self.selected@);
        }
        if self.weight + p.weights[o] as u64 <= p.max_weight as u64 {
            let gain = p.values[o] as i128 + self.gains[o];
            if gain > 0 {
                self.add_item(p, o);
                return true;
            }
        }
        false
    }

    /// Removes selected `i` when its contribution to the value is negative.
    pub fn try_remove(&mut self, p: &Problem, i: usize) -> (accepted: bool)
        requires
            old(self).wf(p),
            i < p.n(),
            old(self).selected@[i as int],
        ensures
            final(self).wf(p),
            accepted == (p.values@[i as int] + old(self).gains@[i as int] - p.matrix()[i as int][i as int]
                < 0),
            accepted ==> final(self).selected@ == old(self).selected@.update(i as int, false),
            accepted ==> final(self).value > old(self).value,
            !accepted ==> *final(self) == *old(self),
    {
        proof {
            lemma_bounds(p, self.selected@);
        }
        let loss = p.values[i] as i128 + self.gains[i] - p.pair(i, i) as i128;
        if loss < 0 {
            self.remove_item(p, i);
            return true;
        }
        false
    }

    /// Trades selected `i` for unselected `o` when the trade fits and raises
    /// the value.
    pub fn try_swap(&mut self, p: &Problem, i: usize, o: usize) -> (accepted: bool)
        requires
            old(self).wf(p),
            i < p.n(),
            o < p.n(),
            old(self).selected@[i as int],
            !old(self).selected@[o as int],
        ensures
            final(self).wf(p),
            accepted == (old(self).swap_fits(p, i as int, o as int) && old(self).swap_delta(
                p,
                i as int,
                o as int,
            ) > 0),
            accepted ==> final(self).selected@ == swapped(old(self).selected@, i as int, o as int),
            accepted ==> final(self).value > old(self).value,
            !accepted ==> *final(self) == *old(self),
    {
        proof {
            lemma_bounds(p, self.selected@);
        }
        if self.weight + p.weights[o] as u64 <= p.max_weight as u64 + p.weights[i] as u64 {
            let delta = (p.values[o] as i128 - p.values[i] as i128) + (self.gains[o]
                - p.pair(o, i) as i128) - (self.gains[i] - p.pair(i, i) as i128);
            if delta > 0 {
                self.apply_swap(p, i, o);
                return true;
            }
        }
        false
    }

    /// The unselected item indices, in increasing order.
    pub fn unselected(&self) -> (r: Vec<usize>)
        ensures
            forall|a: int, b: int| 0 <= a < b < r@.len() ==> r@[a] < r@[b],
            forall|x: int| 0 <= x < r@.len() ==> (r@[x] as int) < self.selected@.len()
                && !self.selected@[r@[x] as int],
            forall|i: int| 0 <= i < self.selected@.len() && !#[trigger] self.selected@[i] ==> r@.contains(
                i as usize),
    {
        let n = self.selected.len();
        let mut r: Vec<usize> = Vec::new();
        let mut i: usize = 0;
        while i < n
            invariant
                n == self.selected@.len(),
                i <= n,
                forall|a: int, b: int| 0 <= a < b < r@.len() ==> r@[a] < r@[b],
                forall|x: int| 0 <= x < r@.len() ==> r@[x] < i && !self.selected@[r@[x] as int],
                forall|j: int| 0 <= j < i && !#[trigger] self.selected@[j] ==> r@.contains(j as usize),
            decreases n - i,
        {
            if !self.selected[i] {
                let ghost r0 = r@;
                r.push(i);
                assert(r@[r@.len() - 1] == i);
                assert forall|j: int| 0 <= j < i && !#[trigger] self.selected@[j] implies r@.contains(
                    j as usize) by {
                    let x = choose|x: int| 0 <= x < r0.len() && r0[x] == j as usize;
                    assert(r@[x] == j as usize);
                }
            }
            i = i + 1;
        }
        r
    }

    /// One trial from given draws: `action` 0 tries adding `others[b]`, 1
    /// tries removing `chosen[a]`, 2 tries trading `chosen[a]` for
    /// `others[b]`. A trial whose list is empty makes no move.
    pub fn trial_move(
        &mut self,
        p: &Problem,
        chosen: &Vec<usize>,
        others: &Vec<usize>,
        action: usize,
        a: usize,
        b: usize,
    ) -> (accepted: bool)
        requires
            old(self).wf(p),
            action < 3,
            chosen@.len() > 0 ==> a < chosen@.len(),
            others@.len() > 0 ==> b < others@.len(),
            forall|x: int| 0 <= x < chosen@.len() ==> (chosen@[x] as int) < p.n()
                && old(self).selected@[chosen@[x] as int],
            forall|x: int| 0 <= x < others@.len() ==> (others@[x] as int) < p.n()
                && !old(self).selected@[others@[x] as int],
        ensures
            trial_outcome(
                p,
                *old(self),
                chosen@,
                others@,
                action as int,
                a as int,
                b as int,
                accepted,
                *final(self),
            ),
    {
        if action == 0 {
            if others.len() == 0 {
                return false;
            }
            self.try_add(p, others[b])
        } else if action == 1 {
            if chosen.len() == 0 {
                return false;
            }
            self.try_remove(p, chosen[a])
        } else {
            if chosen.len() == 0 || others.len() == 0 {
                return false;
            }
            self.try_swap(p, chosen[a], others[b])
        }
    }

    /// One randomized trial: draws the move kind below 3, then a position in
    /// `chosen` (selected items) and one in `others` (unselected items) as
    /// the move needs them, and makes that trial.
    pub fn random_trial(
        &mut self,
        p: &Problem,
        rng: &mut SmallRng,
        chosen: &Vec<usize>,
        others: &Vec<usize>,
    ) -> (accepted: bool)
        requires
            old(self).wf(p),
            forall|x: int| 0 <= x < chosen@.len() ==> (chosen@[x] as int) < p.n()
                && old(self).selected@[chosen@[x] as int],
            forall|x: int| 0 <= x < others@.len() ==> (others@[x] as int) < p.n()
                && !old(self).selected@[others@[x] as int],
        ensures
            final(self).wf(p),
            accepted ==> final(self).value > old(self).value,
            !accepted ==> *final(self) == *old(self),
            chosen@.len() == 0 && others@.len() == 0 ==> !accepted,
            exists|action: int, a: int, b: int|
                draws_in_range(chosen@, others@, action, a, b) && #[trigger] trial_outcome(
                    p,
                    *old(self),
                    chosen@,
                    others@,
                    action,
                    a,
                    b,
                    accepted,
                    *final(self),
                ),
    {
        let action = draw_below(rng, 3);
        let mut a: usize = 0;
        let mut b: usize = 0;
        if (action == 1 && chosen.len() > 0) || (action == 2 && chosen.len() > 0 && others.len()
            > 0) {
            a = draw_below(rng, chosen.len());
        }
        if (action == 0 && others.len() > 0) || (action == 2 && chosen.len() > 0 && others.len()
            > 0) {
            b = draw_below(rng, others.len());
        }
        let accepted = self.trial_move(p, chosen, others, action, a, b);
        assert(draws_in_range(chosen@, others@, action as int, a as int, b as int));
        accepted
    }

    /// Every move a trial can draw would be accepted: both lists are
    /// non-empty and each add, remove and trade improves.
    pub open spec fn every_move_improves(&self, p: &Problem) -> bool {
        &&& exists|i: int| 0 <= i < p.n() && #[trigger] self.selected@[i]
        &&& exists|o: int| 0 <= o < p.n() && !#[trigger] self.selected@[o]
        &&& forall|o: int|
            0 <= o < p.n() && !#[trigger] self.selected@[o] ==> self.weight + p.weights@[o]
                <= p.max_weight && p.values@[o] + self.gains@[o] > 0
        &&& forall|i: int|
            0 <= i < p.n() && #[trigger] self.selected@[i] ==> p.values@[i] + self.gains@[i]
                - p.matrix()[i][i] < 0
        &&& forall|i: int, o: int|
            0 <= i < p.n() && 0 <= o < p.n() && self.selected@[i] && !self.selected@[o] ==> #[trigger] self.swap_fits(p, i, o)
                && self.swap_delta(p, i, o) > 0
    }

    /// Randomized first-improvement search: each round makes up to `trials`
    /// random trials and keeps the first improving one; a round without one,
    /// or `rounds` rounds, end the search. The final selection is reached
    /// from the first by at most `rounds` improving moves.
    pub fn random_search(&mut self, p: &Problem, rng: &mut SmallRng, rounds: usize, trials: usize)
        requires
            old(self).wf(p),
        ensures
            final(self).wf(p),
            final(self).value >= old(self).value,
            final(self).value > old(self).value || *final(self) == *old(self),
            rounds == 0 || trials == 0 || p.n() == 0 ==> *final(self) == *old(self),
            rounds > 0 && trials > 0 && old(self).every_move_improves(p) ==> final(self).value
                > old(self).value,
            exists|path: Seq<Seq<bool>>|
                {
                    &&& is_move_chain(p, path)
                    &&& path.len() <= rounds + 1
                    &&& path[0] == old(self).selected@
                    &&& #[trigger] path.last() == final(self).selected@
                },
    {
        let ghost s0 = *self;
        let ghost mut path: Seq<Seq<bool>> = seq![self.selected@];
        let mut round: usize = 0;
        while round < rounds
            invariant
                self.wf(p),
                self.value >= s0.value,
                self.value > s0.value || *self == s0,
                trials == 0 || p.n() == 0 || rounds == 0 ==> *self == s0,
                round <= rounds,
                round == 0 ==> *self == s0,
                round > 0 ==> self.value > s0.value,
                is_move_chain(p, path),
                path.len() <= round + 1,
                path[0] == s0.selected@,
                path.last() == self.selected@,
            ensures
                self.wf(p),
                self.value >= s0.value,
                self.value > s0.value || *self == s0,
                trials == 0 || p.n() == 0 || rounds == 0 ==> *self == s0,
                rounds > 0 && trials > 0 && s0.every_move_improves(p) ==> self.value > s0.value,
                is_move_chain(p, path),
                path.len() <= rounds + 1,
                path[0] == s0.selected@,
                path.last() == self.selected@,
            decreases rounds - round,
        {
            let chosen = self.selection();
            let others = self.unselected();
            if chosen.len() == 0 && others.len() == 0 {
                proof {
                    if s0.every_move_improves(p) && round == 0 {
                        let i = choose|i: int| 0 <= i < p.n() && #[trigger] s0.selected@[i];
                        assert(chosen@.contains(i as usize));
                    }
                }
                break;
            }
            proof {
                if chosen@.len() > 0 {
                    assert((chosen@[0] as int) < p.n());
                } else {
                    assert((others@[0] as int) < p.n());
                }
                if s0.every_move_improves(p) && round == 0 {
                    let i = choose|i: int| 0 <= i < p.n() && #[trigger] s0.selected@[i];
                    assert(chosen@.contains(i as usize));
                    let o = choose|o: int| 0 <= o < p.n() && !#[trigger] s0.selected@[o];
                    assert(others@.contains(o as usize));
                }
            }
            let mut improved = false;
            let mut t: usize = 0;
            while t < trials
                invariant_except_break
                    forall|x: int| 0 <= x < chosen@.len() ==> (chosen@[x] as int) < p.n()
                        && self.selected@[chosen@[x] as int],
                    forall|x: int| 0 <= x < others@.len() ==> (others@[x] as int) < p.n()
                        && !self.selected@[others@[x] as int],
                    !improved,
                    round == 0 ==> *self == s0,
                    round == 0 && s0.every_move_improves(p) ==> t == 0,
                    path.len() <= round + 1,
                invariant
                    self.wf(p),
                    self.value >= s0.value,
                    self.value > s0.value || *self == s0,
                    trials == 0 || p.n() == 0 ==> *self == s0,
                    p.n() > 0,
                    round < rounds,
                    round > 0 ==> self.value > s0.value,
                    round == 0 && s0.every_move_improves(p) ==> chosen@.len() > 0 && others@.len() > 0,
                    is_move_chain(p, path),
                    path[0] == s0.selected@,
                    path.last() == self.selected@,
                ensures
                    !improved ==> path.len() <= round + 1,
                    !improved ==> round == 0 ==> *self == s0,
                    !improved ==> !(round == 0 && s0.every_move_improves(p) && trials > 0),
                    improved ==> self.value > s0.value && path.len() <= round + 2,
                decreases trials - t,
            {
                let ghost before = *self;
                let accepted = self.random_trial(p, rng, &chosen, &others);
                proof {
                    let (action, a, b) = choose|action: int, a: int, b: int|
                        draws_in_range(chosen@, others@, action, a, b) && #[trigger] trial_outcome(
                            p,
                            before,
                            chosen@,
                            others@,
                            action,
                            a,
                            b,
                            accepted,
                            *self,
                        );
                    if round == 0 && s0.every_move_improves(p) {
                        if action == 0 {
                            assert(!s0.selected@[others@[b] as int]);
                        } else if action == 1 {
                            assert(s0.selected@[chosen@[a] as int]);
                        } else {
                            assert(s0.swap_fits(p, chosen@[a] as int, others@[b] as int));
                        }
                        assert(accepted);
                    }
                    if accepted {
                        let m1 = before.selected@;
                        let m2 = self.selected@;
                        if action == 0 {
                            let o = others@[b] as int;
                            assert(0 <= o < m1.len() && !m1[o] && m2 == m1.update(o, true));
                        } else if action == 1 {
                            let i = chosen@[a] as int;
                            assert(0 <= i < m1.len() && m1[i] && m2 == m1.update(i, false));
                        } else {
                            let i = chosen@[a] as int;
                            let o = others@[b] as int;
                            assert(0 <= i < m1.len() && 0 <= o < m1.len() && m1[i] && !m1[o] && m2
                                == swapped(m1, i, o));
                        }
                        assert(one_move(m1, m2));
                        let path2 = path.push(m2);
                        assert forall|j: int| 0 <= j < path2.len() - 1 implies {
                            &&& one_move(#[trigger] path2[j], path2[j + 1])
                            &&& p.total_value(path2[j + 1]) > p.total_value(path2[j])
                            &&& p.feasible(path2[j + 1])
                            &&& p.is_mask(path2[j + 1])
                        } by {
                            if j < path.len() - 1 {
                                assert(path2[j] == path[j]);
                                assert(path2[j + 1] == path[j + 1]);
                            } else {
                                assert(path2[j] == m1);
                                assert(path2[j + 1] == m2);
                            }
                        }
                        path = path2;
                    }
                }
                if accepted {
                    improved = true;
                    break;
                }
                t = t + 1;
            }
            if !improved {
                break;
            }
            round = round + 1;
        }
    }
}

} // verus!
