use vstd::prelude::*;
use vstd::arithmetic::div_mod::{lemma_fundamental_div_mod, lemma_fundamental_div_mod_converse};
use vstd::arithmetic::mul::lemma_mul_is_commutative;
use crate::a_star::grid::{GridMap, Pos};

verus! {

/// The sum of `f(0)`, `f(1)` and so on up to `f(n - 1)`.
pub open spec fn sum_to(f: spec_fn(int) -> int, n: int) -> int
    decreases n,
{
    if n <= 0 {
        0
    } else {
        sum_to(f, n - 1) + f(n - 1)
    }
}

/// Two functions that agree below `n` but at `j` have sums that differ by
/// what they differ by at `j`.
pub proof fn lemma_sum_change(f: spec_fn(int) -> int, g: spec_fn(int) -> int, n: int, j: int)
    requires
        forall|i: int| 0 <= i < n && i != j ==> #[trigger] f(i) == g(i),
    ensures
        0 <= j < n ==> sum_to(g, n) == sum_to(f, n) - f(j) + g(j),
        !(0 <= j < n) ==> sum_to(g, n) == sum_to(f, n),
    decreases n,
{
    if n > 0 {
        lemma_sum_change(f, g, n - 1, j);
    }
}

/// A sum of `n` terms between `lo` and `hi` lies between `n * lo` and
/// `n * hi`.
pub proof fn lemma_sum_bounds(f: spec_fn(int) -> int, n: int, lo: int, hi: int)
    requires
        0 <= n,
        forall|i: int| 0 <= i < n ==> lo <= #[trigger] f(i) <= hi,
    ensures
        n * lo <= sum_to(f, n) <= n * hi,
    decreases n,
{
    if n > 0 {
        lemma_sum_bounds(f, n - 1, lo, hi);
        assert(lo <= f(n - 1) <= hi);
        assert((n - 1) * lo + lo == n * lo) by (nonlinear_arith);
        assert((n - 1) * hi + hi == n * hi) by (nonlinear_arith);
    } else {
        assert(n * lo == 0 && n * hi == 0) by (nonlinear_arith)
            requires
                n == 0,
        ;
    }
}

impl GridMap {
    /// The number of cells.
    pub open spec fn cells(self) -> int {
        (self.lines() * self.columns()) as int
    }

    /// The place of the cell with number `i`, the cells being numbered row
    /// by row.
    pub open spec fn cell_at(self, i: int) -> Pos {
        ((i / self.columns() as int) as i32, (i % self.columns() as int) as i32)
    }

    /// The number of the cell at `pos`.
    pub open spec fn index_of(self, pos: Pos) -> int {
        pos.0 * (self.columns() as int) + pos.1
    }

    /// For each number of a cell, 1 if `parents` holds the cell and 0 if
    /// not.
    pub open spec fn reached_at(self, parents: Map<Pos, Pos>) -> spec_fn(int) -> int {
        |i: int|
            if parents.contains_key(self.cell_at(i)) {
                1int
            } else {
                0int
            }
    }

    /// How many cells of the grid `parents` holds.
    pub open spec fn reached(self, parents: Map<Pos, Pos>) -> int {
        sum_to(self.reached_at(parents), self.cells())
    }

    /// For each number of a cell, the cost at which the cell was reached,
    /// or `cap` if it was not reached.
    pub open spec fn gain_at(self, parents: Map<Pos, Pos>, cost: Map<Pos, nat>, cap: int) -> spec_fn(
        int,
    ) -> int {
        |i: int|
            if parents.contains_key(self.cell_at(i)) {
                cost[self.cell_at(i)] as int
            } else {
                cap
            }
    }

    /// What is left to gain: the costs at which the cells were reached,
    /// with `cap` for each cell that was not, taken together.
    pub open spec fn potential(self, parents: Map<Pos, Pos>, cost: Map<Pos, nat>, cap: int) -> int {
        sum_to(self.gain_at(parents, cost, cap), self.cells())
    }
}

/// Each cell has a number below the number of cells, and the number leads
/// back to the cell.
pub proof fn lemma_index_of_cell(map: GridMap, pos: Pos)
    requires
        map.wf(),
        map.contains(pos),
    ensures
        0 <= map.index_of(pos) < map.cells(),
        map.cell_at(map.index_of(pos)) == pos,
{
    let w = map.columns() as int;
    let h = map.lines() as int;
    let r = pos.0 as int;
    let c = pos.1 as int;
    lemma_fundamental_div_mod_converse(r * w + c, w, r, c);
    lemma_mul_is_commutative(r, w);
    assert(r * w + c < h * w) by (nonlinear_arith)
        requires
            0 <= r < h,
            0 <= c < w,
    ;
    assert(0 <= r * w + c) by (nonlinear_arith)
        requires
            0 <= r,
            0 <= c,
            0 <= w,
    ;
}

/// Each number below the number of cells is the number of a cell.
pub proof fn lemma_cell_of_index(map: GridMap, i: int)
    requires
        map.wf(),
        0 <= i < map.cells(),
    ensures
        map.contains(map.cell_at(i)),
        map.index_of(map.cell_at(i)) == i,
{
    let w = map.columns() as int;
    let h = map.lines() as int;
    assert(w > 0) by (nonlinear_arith)
        requires
            0 <= i < h * w,
            0 <= w,
    ;
    lemma_fundamental_div_mod(i, w);
    lemma_mul_is_commutative(i / w, w);
    vstd::arithmetic::div_mod::lemma_mod_bound(i, w);
    vstd::arithmetic::div_mod::lemma_div_pos_is_pos(i, w);
    assert(i / w < h) by (nonlinear_arith)
        requires
            0 <= i < h * w,
            0 < w,
            i == w * (i / w) + i % w,
            0 <= i % w < w,
    ;
}

/// The number of cells reached lies between none and all.
pub proof fn lemma_reached_bounds(map: GridMap, parents: Map<Pos, Pos>)
    requires
        map.wf(),
    ensures
        0 <= map.reached(parents) <= map.cells(),
{
    let f = map.reached_at(parents);
    assert(0 <= map.cells()) by (nonlinear_arith)
        requires
            map.cells() == map.lines() * map.columns(),
    ;
    lemma_sum_bounds(f, map.cells(), 0, 1);
}

/// Where a place is added to `parents`, or given another parent, one more
/// cell is reached if the place is a cell that was not reached, and as many
/// as before if not.
pub proof fn lemma_reached_insert(map: GridMap, parents: Map<Pos, Pos>, pos: Pos, parent: Pos)
    requires
        map.wf(),
    ensures
        map.reached(parents.insert(pos, parent)) == map.reached(parents) + if map.contains(pos)
            && !parents.contains_key(pos) {
            1int
        } else {
            0int
        },
{
    let f = map.reached_at(parents);
    let g = map.reached_at(parents.insert(pos, parent));
    if map.contains(pos) {
        let j = map.index_of(pos);
        lemma_index_of_cell(map, pos);
        assert forall|i: int| 0 <= i < map.cells() && i != j implies #[trigger] f(i) == g(i) by {
            lemma_cell_of_index(map, i);
        }
        lemma_sum_change(f, g, map.cells(), j);
    } else {
        assert forall|i: int| 0 <= i < map.cells() && i != -1 implies #[trigger] f(i) == g(i) by {
            lemma_cell_of_index(map, i);
        }
        lemma_sum_change(f, g, map.cells(), -1);
    }
}

/// Where no cost is negative, nothing is left to gain below nothing.
pub proof fn lemma_potential_nonnegative(
    map: GridMap,
    parents: Map<Pos, Pos>,
    cost: Map<Pos, nat>,
    cap: int,
)
    requires
        map.wf(),
        0 <= cap,
    ensures
        0 <= map.potential(parents, cost, cap),
{
    let f = map.gain_at(parents, cost, cap);
    assert(0 <= map.cells()) by (nonlinear_arith)
        requires
            map.cells() == map.lines() * map.columns(),
    ;
    lemma_sum_nonnegative(f, map.cells());
}

/// A sum of terms that are not negative is not negative.
pub proof fn lemma_sum_nonnegative(f: spec_fn(int) -> int, n: int)
    requires
        forall|i: int| 0 <= i < n ==> 0 <= #[trigger] f(i),
    ensures
        0 <= sum_to(f, n),
    decreases n,
{
    if n > 0 {
        lemma_sum_nonnegative(f, n - 1);
    }
}

/// Where a cell is reached at a cost below `cap` for the first time, or at
/// a lower cost than before, less is left to gain.
pub proof fn lemma_potential_insert(
    map: GridMap,
    parents: Map<Pos, Pos>,
    cost: Map<Pos, nat>,
    cap: int,
    pos: Pos,
    parent: Pos,
    c: nat,
)
    requires
        map.wf(),
        map.contains(pos),
        parents.contains_key(pos) ==> c < cost[pos],
        !parents.contains_key(pos) ==> c < cap,
    ensures
        map.potential(parents.insert(pos, parent), cost.insert(pos, c), cap) < map.potential(
            parents,
            cost,
            cap,
        ),
{
    let f = map.gain_at(parents, cost, cap);
    let g = map.gain_at(parents.insert(pos, parent), cost.insert(pos, c), cap);
    let j = map.index_of(pos);
    lemma_index_of_cell(map, pos);
    assert forall|i: int| 0 <= i < map.cells() && i != j implies #[trigger] f(i) == g(i) by {
        lemma_cell_of_index(map, i);
    }
    lemma_sum_change(f, g, map.cells(), j);
}

/// Nothing is reached where nothing has a parent.
pub proof fn lemma_reached_none(map: GridMap)
    requires
        map.wf(),
    ensures
        map.reached(Map::<Pos, Pos>::empty()) == 0,
{
    let f = map.reached_at(Map::<Pos, Pos>::empty());
    assert(0 <= map.cells()) by (nonlinear_arith)
        requires
            map.cells() == map.lines() * map.columns(),
    ;
    lemma_sum_bounds(f, map.cells(), 0, 0);
    assert(map.cells() * 0 == 0) by (nonlinear_arith);
}

/// Where the agent stands on the grid and is reached, at least one cell is
/// reached.
pub proof fn lemma_reached_agent(map: GridMap, parents: Map<Pos, Pos>)
    requires
        map.wf(),
        parents.contains_key(map.agent()),
    ensures
        map.contains(map.agent()) ==> 1 <= map.reached(parents),
{
    if map.contains(map.agent()) {
        let without = parents.remove(map.agent());
        lemma_reached_insert(map, without, map.agent(), parents[map.agent()]);
        assert(without.insert(map.agent(), parents[map.agent()]) =~= parents);
        lemma_reached_bounds(map, without);
    }
}

} // verus!
