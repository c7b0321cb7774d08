use vstd::prelude::*;

verus! {

/// Largest number of items an instance may hold; it keeps every total of
/// values and interactions well inside an `i128`.
pub const MAX_ITEMS: usize = 16777216;

/// Sum of `r[j]` over the first `len` positions `j` that `m` marks as selected.
pub open spec fn row_dot(r: Seq<i32>, m: Seq<bool>, len: int) -> int
    decreases len,
{
    if len <= 0 {
        0
    } else {
        row_dot(r, m, len - 1) + if m[len - 1] { r[len - 1] as int } else { 0 }
    }
}

/// Sum of the weights of the selected items among the first `len`.
pub open spec fn weight_sum(w: Seq<u32>, m: Seq<bool>, len: int) -> int
    decreases len,
{
    if len <= 0 {
        0
    } else {
        weight_sum(w, m, len - 1) + if m[len - 1] { w[len - 1] as int } else { 0 }
    }
}

/// Total value of the selected items among the first `len`: each item's own
/// value, plus each interaction between two selected items counted once
/// (as `a[i][j]` with `j < i`).
pub open spec fn value_sum(v: Seq<u32>, a: Seq<Seq<i32>>, m: Seq<bool>, len: int) -> int
    decreases len,
{
    if len <= 0 {
        0
    } else {
        value_sum(v, a, m, len - 1) + if m[len - 1] {
            v[len - 1] as int + row_dot(a[len - 1], m, len - 1)
        } else {
            0
        }
    }
}

/// Number of selected items among the first `len`.
pub open spec fn count_sel(m: Seq<bool>, len: int) -> int
    decreases len,
{
    if len <= 0 {
        0
    } else {
        count_sel(m, len - 1) + if m[len - 1] { 1int } else { 0 }
    }
}

/// The selection holding exactly the listed items, over `n` items.
pub open spec fn mask_of(n: int, items: Seq<usize>) -> Seq<bool> {
    Seq::new(n as nat, |i: int| items.contains(i as usize))
}

/// One instance of the quadratic knapsack problem.
pub struct Problem {
    pub values: Vec<u32>,
    pub weights: Vec<u32>,
    /// `interactions[i][j]`: value added when items `i` and `j` are both selected.
    pub interactions: Vec<Vec<i32>>,
    pub max_weight: u32,
}

impl Problem {
    pub open spec fn n(&self) -> int {
        self.values@.len() as int
    }

    /// The interaction of each pair, read from the lower triangle:
    /// `matrix()[i][j]` is `interactions[max(i, j)][min(i, j)]`, so the pair
    /// `{i, j}` has one value however the matrix was stored.
    pub open spec fn matrix(&self) -> Seq<Seq<i32>> {
        Seq::new(
            self.n() as nat,
            |i: int|
                Seq::new(
                    self.n() as nat,
                    |j: int|
                        if j <= i {
                            self.interactions@[i]@[j]
                        } else {
                            self.interactions@[j]@[i]
                        },
                ),
        )
    }

    /// The shape is square and the size is bounded; the pair view that follows
    /// from it is square and symmetric.
    pub open spec fn wf(&self) -> bool {
        &&& self.n() <= MAX_ITEMS
        &&& self.weights@.len() == self.n()
        &&& self.interactions@.len() == self.n()
        &&& forall|i: int| 0 <= i < self.n() ==> #[trigger] self.interactions@[i]@.len() == self.n()
        &&& self.matrix().len() == self.n()
        &&& forall|i: int| 0 <= i < self.n() ==> #[trigger] self.matrix()[i].len() == self.n()
        &&& forall|i: int, j: int|
            0 <= i < self.n() && 0 <= j < self.n() ==> #[trigger] self.matrix()[i][j]
                == self.matrix()[j][i]
    }

    /// A selection of this instance: one flag per item.
    pub open spec fn is_mask(&self, m: Seq<bool>) -> bool {
        m.len() == self.n()
    }

    pub open spec fn total_weight(&self, m: Seq<bool>) -> int {
        weight_sum(self.weights@, m, self.n())
    }

    pub open spec fn total_value(&self, m: Seq<bool>) -> int {
        value_sum(self.values@, self.matrix(), m, self.n())
    }

    /// Sum of the interactions of item `k` with the selected items.
    pub open spec fn gain(&self, k: int, m: Seq<bool>) -> int {
        row_dot(self.matrix()[k], m, self.n())
    }

    pub open spec fn feasible(&self, m: Seq<bool>) -> bool {
        self.total_weight(m) <= self.max_weight
    }

    /// Checks the conditions of `wf`.
    pub fn is_valid(&self) -> (r: bool)
        ensures
            r == self.wf(),
    {
        let n = self.values.len();
        if n > MAX_ITEMS || self.weights.len() != n || self.interactions.len() != n {
            return false;
        }
        let mut i: usize = 0;
        while i < n
            invariant
                n == self.n(),
                self.interactions@.len() == n,
                i <= n,
                forall|k: int| 0 <= k < i ==> #[trigger] self.interactions@[k]@.len() == n,
            decreases n - i,
        {
            if self.interactions[i].len() != n {
                return false;
            }
            i = i + 1;
        }
        proof {
            assert forall|x: int, y: int|
                0 <= x < n && 0 <= y < n implies #[trigger] self.matrix()[x][y]
                    == self.matrix()[y][x] by {}
        }
        true
    }

    /// The interaction of the pair `{i, j}`, read from the lower triangle.
    pub fn pair(&self, i: usize, j: usize) -> (r: i32)
        requires
            self.wf(),
            i < self.n(),
            j < self.n(),
        ensures
            r == self.matrix()[i as int][j as int],
    {
        if j <= i {
            self.interactions[i][j]
        } else {
            self.interactions[j][i]
        }
    }
}

} // verus!
