use vstd::prelude::*;
use crate::lemmas::{lemma_bounds, lemma_count_bounds, lemma_count_update};
use crate::problem::{count_sel, mask_of, Problem};
use crate::state::SolutionState;

verus! {

/// Rank class of an item's gain per weight: a weightless item with a positive
/// gain ranks above everything (2), a weightless one without ranks below
/// everything (0), and any other item ranks by its ratio (1).
pub open spec fn rank_class(g: int, w: int) -> int {
    if w == 0 {
        if g > 0 { 2 } else { 0 }
    } else {
        1
    }
}

/// Whether gain `g1` at weight `w1` ranks strictly above gain `g2` at weight `w2`.
pub open spec fn ranks_above(g1: int, w1: int, g2: int, w2: int) -> bool {
    let c1 = rank_class(g1, w1);
    let c2 = rank_class(g2, w2);
    c1 > c2 || (c1 == 1 && c2 == 1 && g1 * w2 > g2 * w1)
}

proof fn lemma_ratio_split(g1: int, w1: int, g2: int, w2: int, g3: int, w3: int)
    requires
        w1 > 0,
        w2 > 0,
        w3 > 0,
        g1 * w2 > g2 * w1,
    ensures
        g1 * w3 > g3 * w1 || g3 * w2 > g2 * w3,
{
    if g1 * w3 <= g3 * w1 && g3 * w2 <= g2 * w3 {
        assert(g1 * w3 * w2 <= g3 * w1 * w2) by (nonlinear_arith)
            requires
                g1 * w3 <= g3 * w1,
                w2 > 0,
        ;
        assert(g3 * w2 * w1 <= g2 * w3 * w1) by (nonlinear_arith)
            requires
                g3 * w2 <= g2 * w3,
                w1 > 0,
        ;
        assert(g1 * w2 * w3 <= g2 * w1 * w3) by (nonlinear_arith)
            requires
                g1 * w3 * w2 <= g3 * w1 * w2,
                g3 * w2 * w1 <= g2 * w3 * w1,
        ;
        assert(g1 * w2 <= g2 * w1) by (nonlinear_arith)
            requires
                g1 * w2 * w3 <= g2 * w1 * w3,
                w3 > 0,
        ;
    }
}

/// If `a` ranks above `b`, any third item ranks below `a` or above `b`.
pub proof fn lemma_ranks_split(g1: int, w1: int, g2: int, w2: int, g3: int, w3: int)
    requires
        w1 >= 0,
        w2 >= 0,
        w3 >= 0,
        ranks_above(g1, w1, g2, w2),
    ensures
        ranks_above(g1, w1, g3, w3) || ranks_above(g3, w3, g2, w2),
        !ranks_above(g2, w2, g1, w1),
{
    if rank_class(g1, w1) == 1 && rank_class(g2, w2) == 1 && rank_class(g3, w3) == 1 {
        lemma_ratio_split(g1, w1, g2, w2, g3, w3);
    }
}

/// Item `k` may be added to selection `m`: it is unselected, fits the
/// remaining budget, and does not rank at the bottom.
pub open spec fn fits_cand(p: &Problem, m: Seq<bool>, k: int) -> bool {
    &&& 0 <= k < p.n()
    &&& !m[k]
    &&& p.total_weight(m) + p.weights@[k] <= p.max_weight
    &&& rank_class(p.values@[k] + p.gain(k, m), p.weights@[k] as int) != 0
}

/// Against selection `m`, item `a` ranks strictly above item `b`.
pub open spec fn outranks(p: &Problem, m: Seq<bool>, a: int, b: int) -> bool {
    ranks_above(
        p.values@[a] + p.gain(a, m),
        p.weights@[a] as int,
        p.values@[b] + p.gain(b, m),
        p.weights@[b] as int,
    )
}

/// `b` is the greedy choice for selection `m`: a candidate that no candidate
/// outranks, and that outranks every candidate before it.
pub open spec fn is_greedy_pick(p: &Problem, m: Seq<bool>, b: int) -> bool {
    &&& fits_cand(p, m, b)
    &&& forall|k: int| #[trigger] fits_cand(p, m, k) ==> !outranks(p, m, k, b)
    &&& forall|k: int| 0 <= k < b && #[trigger] fits_cand(p, m, k) ==> outranks(p, m, b, k)
}

/// `picks`, in order, are the greedy choices made from the empty selection.
pub open spec fn greedy_run(p: &Problem, picks: Seq<usize>) -> bool
    decreases picks.len(),
{
    if picks.len() == 0 {
        true
    } else {
        greedy_run(p, picks.drop_last()) && is_greedy_pick(
            p,
            mask_of(p.n(), picks.drop_last()),
            picks.last() as int,
        )
    }
}

/// At most one item is the greedy choice for a selection.
pub proof fn lemma_greedy_pick_unique(p: &Problem, m: Seq<bool>, a: int, b: int)
    requires
        p.wf(),
        is_greedy_pick(p, m, a),
        is_greedy_pick(p, m, b),
    ensures
        a == b,
{
    if a < b {
        assert(fits_cand(p, m, a));
        assert(outranks(p, m, b, a));
    } else if b < a {
        assert(fits_cand(p, m, b));
        assert(outranks(p, m, a, b));
    }
}

/// Two greedy runs of the same length make the same picks: the construction
/// is determined by the instance.
pub proof fn lemma_greedy_run_unique(p: &Problem, a: Seq<usize>, b: Seq<usize>)
    requires
        p.wf(),
        greedy_run(p, a),
        greedy_run(p, b),
        a.len() == b.len(),
    ensures
        a == b,
    decreases a.len(),
{
    if a.len() > 0 {
        lemma_greedy_run_unique(p, a.drop_last(), b.drop_last());
        lemma_greedy_pick_unique(p, mask_of(p.n(), a.drop_last()), a.last() as int, b.last() as int);
        assert(a =~= b.drop_last().push(b.last()));
        assert(b =~= b.drop_last().push(b.last()));
    }
}

/// The run `picks` is finished: nothing is left to pick after it.
pub open spec fn greedy_done(p: &Problem, picks: Seq<usize>) -> bool {
    forall|k: int| !#[trigger] fits_cand(p, mask_of(p.n(), picks), k)
}

/// Every prefix of a greedy run is a greedy run.
pub proof fn lemma_greedy_run_prefix(p: &Problem, picks: Seq<usize>, len: int)
    requires
        greedy_run(p, picks),
        0 <= len <= picks.len(),
    ensures
        greedy_run(p, picks.take(len)),
    decreases picks.len(),
{
    if len < picks.len() {
        lemma_greedy_run_prefix(p, picks.drop_last(), len);
        assert(picks.drop_last().take(len) =~= picks.take(len));
    } else {
        assert(picks.take(len) =~= picks);
    }
}

/// Two finished greedy runs are the same run, whatever their lengths: the
/// construction's result is determined by the instance.
pub proof fn lemma_greedy_done_unique(p: &Problem, a: Seq<usize>, b: Seq<usize>)
    requires
        p.wf(),
        greedy_run(p, a),
        greedy_run(p, b),
        greedy_done(p, a),
        greedy_done(p, b),
    ensures
        a == b,
{
    if a.len() < b.len() {
        lemma_greedy_done_shorter(p, a, b);
    } else if b.len() < a.len() {
        lemma_greedy_done_shorter(p, b, a);
    } else {
        lemma_greedy_run_unique(p, a, b);
    }
}

/// A greedy run that a longer greedy run extends is not finished.
proof fn lemma_greedy_done_shorter(p: &Problem, a: Seq<usize>, b: Seq<usize>)
    requires
        p.wf(),
        greedy_run(p, a),
        greedy_run(p, b),
        a.len() < b.len(),
    ensures
        !greedy_done(p, a),
{
    let n = a.len() as int;
    lemma_greedy_run_prefix(p, b, n + 1);
    let c = b.take(n + 1);
    assert(c.drop_last() =~= b.take(n));
    lemma_greedy_run_prefix(p, b, n);
    lemma_greedy_run_unique(p, a, b.take(n));
    assert(is_greedy_pick(p, mask_of(p.n(), a), c.last() as int));
    assert(fits_cand(p, mask_of(p.n(), a), c.last() as int));
}

impl SolutionState {
    /// Marginal gain of adding item `k`: its value plus its interactions with
    /// the selection.
    pub open spec fn marginal(&self, p: &Problem, k: int) -> int {
        p.values@[k] + self.gains@[k]
    }

    /// Item `k` may be added: it is unselected, fits the remaining budget,
    /// and does not rank at the bottom.
    pub open spec fn is_candidate(&self, p: &Problem, k: int) -> bool {
        &&& !self.selected@[k]
        &&& self.weight + p.weights@[k] <= p.max_weight
        &&& rank_class(self.marginal(p, k), p.weights@[k] as int) != 0
    }

    pub open spec fn ranks_over(&self, p: &Problem, a: int, b: int) -> bool {
        ranks_above(self.marginal(p, a), p.weights@[a] as int, self.marginal(p, b), p.weights@[b] as int)
    }

    /// No item can be added any more: each unselected item either does not
    /// fit, or weighs nothing and would not raise the value.
    pub open spec fn is_maximal(&self, p: &Problem) -> bool {
        forall|k: int|
            0 <= k < p.n() && !#[trigger] self.selected@[k] ==> self.weight + p.weights@[k]
                > p.max_weight || (p.weights@[k] == 0 && self.marginal(p, k) <= 0)
    }

    /// The candidate with the highest gain per weight, the first one in index
    /// order among equals; `None` when there is no candidate.
    pub fn best_candidate(&self, p: &Problem) -> (r: Option<usize>)
        requires
            self.wf(p),
        ensures
            r is None <==> forall|k: int| 0 <= k < p.n() ==> !#[trigger] self.is_candidate(p, k),
            r matches Some(b) ==> {
                &&& b < p.n()
                &&& self.is_candidate(p, b as int)
                &&& forall|k: int|
                    0 <= k < p.n() && #[trigger] self.is_candidate(p, k) ==> !self.ranks_over(
                        p,
                        k,
                        b as int,
                    )
                &&& forall|k: int|
                    0 <= k < b && #[trigger] self.is_candidate(p, k) ==> self.ranks_over(p, b as int, k)
            },
    {
        let n = p.values.len();
        proof {
            lemma_bounds(p, self.selected@);
        }
        let mut best: Option<usize> = None;
        let mut best_gain: i128 = 0;
        let mut best_weight: u32 = 0;
        let mut i: usize = 0;
        while i < n
            invariant
                n == p.n(),
                self.wf(p),
                i <= n,
                forall|x: int| 0 <= x < p.n() ==> -0x1_0000_0000_0000_0000 <= #[trigger] p.gain(x, self.selected@)
                    <= 0x1_0000_0000_0000_0000,
                -0x2_0000_0000_0000_0000 <= best_gain <= 0x2_0000_0000_0000_0000,
                best is None ==> forall|k: int| 0 <= k < i ==> !#[trigger] self.is_candidate(p, k),
                best matches Some(b) ==> {
                    &&& b < i
                    &&& self.is_candidate(p, b as int)
                    &&& best_gain == self.marginal(p, b as int)
                    &&& best_weight == p.weights@[b as int]
                    &&& forall|k: int|
                        0 <= k < i && #[trigger] self.is_candidate(p, k) ==> !self.ranks_over(
                            p,
                            k,
                            b as int,
                        )
                    &&& forall|k: int|
                        0 <= k < b && #[trigger] self.is_candidate(p, k) ==> self.ranks_over(
                            p,
                            b as int,
                            k,
                        )
                },
            decreases n - i,
        {
            let w = p.weights[i];
            if !self.selected[i] && self.weight + w as u64 <= p.max_weight as u64 {
                let g = p.values[i] as i128 + self.gains[i];
                let class: u8 = if w == 0 {
                    if g > 0 { 2 } else { 0 }
                } else {
                    1
                };
                if class != 0 {
                    proof {
                        assert(-0x2_0000_0000_0000_0000 * 0x1_0000_0000 <= g * best_weight
                            <= 0x2_0000_0000_0000_0000 * 0x1_0000_0000) by (nonlinear_arith)
                            requires
                                -0x2_0000_0000_0000_0000 <= g <= 0x2_0000_0000_0000_0000,
                                0 <= best_weight <= 0x1_0000_0000,
                        ;
                        assert(-0x2_0000_0000_0000_0000 * 0x1_0000_0000 <= best_gain * w
                            <= 0x2_0000_0000_0000_0000 * 0x1_0000_0000) by (nonlinear_arith)
                            requires
                                -0x2_0000_0000_0000_0000 <= best_gain <= 0x2_0000_0000_0000_0000,
                                0 <= w <= 0x1_0000_0000,
                        ;
                    }
                    let better = match best {
                        None => true,
                        Some(_) => {
                            let best_class: u8 = if best_weight == 0 {
                                if best_gain > 0 { 2 } else { 0 }
                            } else {
                                1
                            };
                            class > best_class || (class == 1 && best_class == 1 && g
                                * best_weight as i128 > best_gain * w as i128)
                        },
                    };
                    proof {
                        if let Some(b) = best {
                            assert(better == self.ranks_over(p, i as int, b as int));
                            if better {
                                assert forall|k: int|
                                    0 <= k <= i && #[trigger] self.is_candidate(p, k) implies !self.ranks_over(
                                    p,
                                    k,
                                    i as int,
                                ) by {
                                    lemma_ranks_split(
                                        self.marginal(p, i as int), p.weights@[i as int] as int,
                                        self.marginal(p, b as int), p.weights@[b as int] as int,
                                        self.marginal(p, k), p.weights@[k] as int,
                                    );
                                    if k < i && self.ranks_over(p, k, i as int) {
                                        lemma_ranks_split(
                                            self.marginal(p, k), p.weights@[k] as int,
                                            self.marginal(p, i as int), p.weights@[i as int] as int,
                                            self.marginal(p, b as int), p.weights@[b as int] as int,
                                        );
                                    }
                                }
                                assert forall|k: int|
                                    0 <= k < i && #[trigger] self.is_candidate(p, k) implies self.ranks_over(
                                    p,
                                    i as int,
                                    k,
                                ) by {
                                    lemma_ranks_split(
                                        self.marginal(p, i as int), p.weights@[i as int] as int,
                                        self.marginal(p, b as int), p.weights@[b as int] as int,
                                        self.marginal(p, k), p.weights@[k] as int,
                                    );
                                }
                            }
                        } else {
                            assert(!self.ranks_over(p, i as int, i as int));
                        }
                    }
                    if better {
                        best = Some(i);
                        best_gain = g;
                        best_weight = w;
                    }
                }
            }
            i = i + 1;
        }
        best
    }

    /// Greedy construction: from the empty selection, adds the best candidate
    /// until none is left.
    pub fn construct(p: &Problem) -> (s: SolutionState)
        requires
            p.wf(),
        ensures
            s.wf(p),
            s.is_maximal(p),
            exists|picks: Seq<usize>|
                greedy_run(p, picks) && greedy_done(p, picks) && #[trigger] mask_of(p.n(), picks)
                    == s.selected@,
    {
        let mut s = SolutionState::empty(p);
        let ghost n = p.n();
        let ghost mut picks: Seq<usize> = Seq::empty();
        proof {
            lemma_count_bounds(s.selected@, n);
            assert(mask_of(n, picks) =~= s.selected@);
        }
        loop
            invariant
                s.wf(p),
                n == p.n(),
                0 <= count_sel(s.selected@, n) <= n,
                greedy_run(p, picks),
                mask_of(n, picks) == s.selected@,
            ensures
                s.wf(p),
                s.is_maximal(p),
                greedy_run(p, picks),
                mask_of(n, picks) == s.selected@,
                greedy_done(p, picks),
            decreases n - count_sel(s.selected@, n),
        {
            match s.best_candidate(p) {
                None => {
                    assert forall|k: int| !#[trigger] fits_cand(p, mask_of(n, picks), k) by {
                        if 0 <= k < n {
                            assert(!s.is_candidate(p, k));
                        }
                    }
                    assert forall|k: int| 0 <= k < p.n() && !#[trigger] s.selected@[k] implies s.weight
                        + p.weights@[k] > p.max_weight || (p.weights@[k] == 0 && s.marginal(p, k)
                        <= 0) by {
                        assert(!s.is_candidate(p, k));
                    }
                    break;
                },
                Some(k) => {
                    proof {
                        lemma_count_update(s.selected@, k as int, n);
                        lemma_count_bounds(s.selected@.update(k as int, true), n);
                        let m = s.selected@;
                        assert forall|j: int| #[trigger] fits_cand(p, m, j) implies !outranks(
                            p,
                            m,
                            j,
                            k as int,
                        ) by {
                            assert(s.is_candidate(p, j));
                        }
                        assert forall|j: int| 0 <= j < k && #[trigger] fits_cand(p, m, j) implies outranks(
                            p,
                            m,
                            k as int,
                            j,
                        ) by {
                            assert(s.is_candidate(p, j));
                        }
                        assert(is_greedy_pick(p, m, k as int));
                        let next = picks.push(k);
                        assert(next.drop_last() =~= picks);
                        assert(greedy_run(p, next));
                        assert(mask_of(n, next) =~= m.update(k as int, true)) by {
                            assert forall|i: int| 0 <= i < n implies mask_of(n, next)[i] == m.update(
                                k as int,
                                true,
                            )[i] by {
                                if i == k {
                                    assert(next[next.len() - 1] == k);
                                } else if picks.contains(i as usize) {
                                    let x = choose|x: int| 0 <= x < picks.len() && picks[x] == i as usize;
                                    assert(next[x] == i as usize);
                                } else if next.contains(i as usize) {
                                    let x = choose|x: int| 0 <= x < next.len() && next[x] == i as usize;
                                    assert(x < picks.len());
                                    assert(picks[x] == i as usize);
                                }
                            }
                        }
                        picks = next;
                    }
                    s.add_item(p, k);
                },
            }
        }
        s
    }
}

} // verus!
