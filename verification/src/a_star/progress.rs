use vstd::prelude::*;
use crate::a_star::bookkeeping::{
    lemma_potential_insert,
    lemma_potential_nonnegative,
    lemma_reached_bounds,
    lemma_reached_insert,
};
use crate::a_star::frontier::PriorityState;
use crate::a_star::grid::{candidate, neighbors_from, yields, GridMap, Pos};
use crate::a_star::history::{lemma_traces_back_agent, Ranking};

verus! {


/// What a search knows at some moment: the parent of each place it has
/// reached, how the places rank, and how often it has set a parent.
pub struct Progress {
    pub parents: Map<Pos, Pos>,
    pub ranking: Ranking,
    pub clock: nat,
}

impl Progress {
    /// Where every search starts: the agent is reached, at no cost, and is
    /// its own parent.
    pub open spec fn start(agent: Pos) -> Progress {
        Progress {
            parents: Map::<Pos, Pos>::empty().insert(agent, agent),
            ranking: Ranking {
                cost: Map::<Pos, nat>::empty().insert(agent, 0nat),
                stamp: Map::<Pos, nat>::empty().insert(agent, 0nat),
            },
            clock: 1,
        }
    }

    /// The search after `pos` was reached from `parent` at cost `c`.
    pub open spec fn assign(self, pos: Pos, parent: Pos, c: nat) -> Progress {
        Progress {
            parents: self.parents.insert(pos, parent),
            ranking: Ranking {
                cost: self.ranking.cost.insert(pos, c),
                stamp: self.ranking.stamp.insert(pos, self.clock),
            },
            clock: self.clock + 1,
        }
    }
}

/// One step leads from a place to another one, which is open ground on the
/// grid.
pub proof fn lemma_step(map: GridMap, from: Pos, to: Pos)
    requires
        map.wf(),
        map.step(from, to),
    ensures
        to != from,
        map.walkable(to),
        map.contains(to),
{
    reveal_with_fuel(neighbors_from, 5);
    let all = map.walkable_neighbors(from);
    let j = choose|j: int| 0 <= j < all.len() && all[j] == to;
    let d = choose|d: int| 0 <= d < 4 && yields(map.rows(), map.size(), from, d) && candidate(from, d) == to;
}

impl GridMap {
    /// Whether the costs of the grid can be added up along any path without
    /// leaving a `usize`: no cost is negative or above `limit`, and `limit`
    /// for every cell and two more, with the longest distance there is
    /// between two places, is a `usize`.
    pub open spec fn affordable_at(self, limit: nat) -> bool {
        &&& self.costs_within(limit)
        &&& limit * (self.cells() + 2) + i32::MAX <= usize::MAX
    }

    /// Whether some limit makes the costs of the grid affordable.
    pub open spec fn affordable(self) -> bool {
        exists|limit: nat| #[trigger] self.affordable_at(limit)
    }

    /// Whether `path` leads from the agent to `goal` step by step; the
    /// agent alone is the way to itself.
    pub open spec fn is_walk(self, path: Seq<Pos>, goal: Pos) -> bool {
        &&& path.len() >= 1
        &&& path.first() == self.agent()
        &&& path.last() == goal
        &&& forall|i: int| 0 < i < path.len() ==> #[trigger] self.step(path[i - 1], path[i])
    }

    /// Whether the agent can walk to `goal`.
    pub open spec fn reachable(self, goal: Pos) -> bool {
        exists|path: Seq<Pos>| #[trigger] self.is_walk(path, goal)
    }

    /// Whether every step from `pos` leads to a place that `parents` holds.
    pub open spec fn expanded(self, parents: Map<Pos, Pos>, pos: Pos) -> bool {
        forall|to: Pos| #[trigger] self.step(pos, to) ==> parents.contains_key(to)
    }

    /// Whether every place that `parents` holds either waits to be looked
    /// at or has been looked at.
    #[verifier::opaque]
    pub open spec fn settled(self, parents: Map<Pos, Pos>, waiting: Set<Pos>) -> bool {
        forall|pos: Pos| #[trigger]
            parents.contains_key(pos) ==> waiting.contains(pos) || self.expanded(parents, pos)
    }

    /// The largest cost at which a cell can be reached, and one more.
    pub open spec fn cap(self, limit: nat) -> int {
        limit * self.cells() + 1
    }

    /// What the search holds to be true all the time: `parents` leads back
    /// to the agent, which was reached at no cost; every other place it has
    /// reached is open ground, was reached before now, and at a cost of no
    /// more than `limit` for each cell reached.
    #[verifier::opaque]
    pub open spec fn searching(self, progress: Progress, limit: nat) -> bool {
        &&& self.traces_back(progress.parents, progress.ranking)
        &&& progress.ranking.cost[self.agent()] == 0
        &&& forall|pos: Pos| #[trigger]
            progress.parents.contains_key(pos) ==> {
                &&& progress.ranking.stamp[pos] < progress.clock
                &&& progress.ranking.cost[pos] <= limit * self.reached(progress.parents)
                &&& (pos == self.agent() || self.walkable(pos))
            }
    }

    /// What is left for the search to gain.
    pub open spec fn measure(self, progress: Progress, limit: nat) -> int {
        self.potential(progress.parents, progress.ranking.cost, self.cap(limit))
    }
}

/// A search starts well.
pub proof fn lemma_start(map: GridMap, limit: nat)
    requires
        map.wf(),
    ensures
        map.searching(Progress::start(map.agent()), limit),
        map.settled(Progress::start(map.agent()).parents, Set::<Pos>::empty().insert(map.agent())),
        0 <= map.measure(Progress::start(map.agent()), limit),
{
    reveal(GridMap::searching);
    reveal(GridMap::traces_back);
    reveal(GridMap::settled);
    let start = Progress::start(map.agent());
    lemma_reached_bounds(map, start.parents);
    assert(0 <= limit * map.reached(start.parents)) by (nonlinear_arith)
        requires
            0 <= limit,
            0 <= map.reached(start.parents),
    ;
    assert(0 <= map.cap(limit)) by (nonlinear_arith)
        requires
            map.cap(limit) == limit * map.cells() + 1,
            0 <= limit,
            0 <= map.cells(),
    ;
    lemma_potential_nonnegative(map, start.parents, start.ranking.cost, map.cap(limit));
}

/// What a search knows of the agent: it is reached, at no cost.
pub proof fn lemma_searching_agent(map: GridMap, progress: Progress, limit: nat)
    requires
        map.searching(progress, limit),
    ensures
        progress.parents.contains_key(map.agent()),
        progress.ranking.cost[map.agent()] == 0,
        map.traces_back(progress.parents, progress.ranking),
{
    reveal(GridMap::searching);
    lemma_traces_back_agent(map, progress.parents, progress.ranking);
}

/// What a search knows of a place it has reached.
pub proof fn lemma_searching_at(map: GridMap, progress: Progress, limit: nat, pos: Pos)
    requires
        map.wf(),
        map.searching(progress, limit),
        progress.parents.contains_key(pos),
    ensures
        pos == map.agent() || map.contains(pos),
        i32::MIN < pos.0 < i32::MAX,
        i32::MIN < pos.1 < i32::MAX,
        progress.ranking.cost[pos] <= limit * map.cells(),
{
    reveal(GridMap::searching);
    lemma_reached_bounds(map, progress.parents);
    assert(limit * map.reached(progress.parents) <= limit * map.cells()) by (nonlinear_arith)
        requires
            0 <= limit,
            map.reached(progress.parents) <= map.cells(),
    ;
}

/// Reaching a place from a place that was reached, at the cost of that
/// place and its own, and at a lower cost than before if it was reached
/// before, keeps the search well and leaves less to gain.
pub proof fn lemma_assign(map: GridMap, progress: Progress, limit: nat, pos: Pos, parent: Pos, c: nat)
    requires
        map.wf(),
        map.costs_within(limit),
        map.searching(progress, limit),
        progress.parents.contains_key(parent),
        map.step(parent, pos),
        c == progress.ranking.cost[parent] + map.tread_cost(pos),
        progress.parents.contains_key(pos) ==> c < progress.ranking.cost[pos],
    ensures
        pos != map.agent(),
        map.searching(progress.assign(pos, parent, c), limit),
        0 <= map.measure(progress.assign(pos, parent, c), limit) < map.measure(progress, limit),
        map.reached(progress.assign(pos, parent, c).parents) == map.reached(progress.parents)
            + if progress.parents.contains_key(pos) {
            0int
        } else {
            1int
        },
{
    reveal(GridMap::searching);
    reveal(GridMap::traces_back);
    let after = progress.assign(pos, parent, c);
    let cap = map.cap(limit);
    lemma_step(map, parent, pos);
    let was = map.cell(pos);
    assert(0 <= map.tread_cost(pos) <= limit);
    lemma_reached_insert(map, progress.parents, pos, parent);
    lemma_reached_bounds(map, progress.parents);
    lemma_reached_bounds(map, after.parents);
    let n0 = map.reached(progress.parents);
    let n1 = map.reached(after.parents);
    assert(limit * n0 <= limit * n1) by (nonlinear_arith)
        requires
            0 <= limit,
            n0 <= n1,
    ;
    assert(limit * n1 <= limit * map.cells()) by (nonlinear_arith)
        requires
            0 <= limit,
            n1 <= map.cells(),
    ;
    assert(limit * n0 + limit == limit * (n0 + 1)) by (nonlinear_arith);
    assert(c <= limit * n1);
    assert(0 <= cap) by (nonlinear_arith)
        requires
            cap == limit * map.cells() + 1,
            0 <= limit,
            0 <= map.cells(),
    ;
    lemma_potential_insert(map, progress.parents, progress.ranking.cost, cap, pos, parent, c);
    lemma_potential_nonnegative(map, after.parents, after.ranking.cost, cap);
    assert forall|q: Pos| #[trigger] after.parents.contains_key(q) && q != map.agent() implies {
        &&& after.parents.contains_key(after.parents[q])
        &&& map.step(after.parents[q], q)
        &&& after.ranking.below(after.parents[q], q)
        &&& after.ranking.cost[after.parents[q]] + map.tread_cost(q) <= after.ranking.cost[q]
    } by {
        if q != pos {
            assert(progress.parents.contains_key(q));
            let u = progress.parents[q];
            assert(progress.parents.contains_key(u));
        }
    }
}

/// More places waiting leave every place waiting or looked at.
pub proof fn lemma_settled_weaken(map: GridMap, parents: Map<Pos, Pos>, fewer: Set<Pos>, more: Set<Pos>)
    requires
        map.settled(parents, fewer),
        fewer.subset_of(more),
    ensures
        map.settled(parents, more),
{
    reveal(GridMap::settled);
}

/// A place that is reached and put to wait leaves every place waiting or
/// looked at.
pub proof fn lemma_settled_assign(
    map: GridMap,
    parents: Map<Pos, Pos>,
    waiting: Set<Pos>,
    pos: Pos,
    parent: Pos,
)
    requires
        map.settled(parents, waiting),
    ensures
        map.settled(parents.insert(pos, parent), waiting.insert(pos)),
{
    reveal(GridMap::settled);
    let after = parents.insert(pos, parent);
    assert forall|p: Pos| #[trigger] after.contains_key(p) implies waiting.insert(pos).contains(p)
        || map.expanded(after, p) by {
        if p != pos {
            assert(parents.contains_key(p));
            if !waiting.contains(p) {
                assert(map.expanded(parents, p));
            }
        }
    }
}

/// A place that has been looked at need not wait.
pub proof fn lemma_settled_done(map: GridMap, parents: Map<Pos, Pos>, waiting: Set<Pos>, pos: Pos)
    requires
        map.settled(parents, waiting),
        map.expanded(parents, pos),
    ensures
        map.settled(parents, waiting.remove(pos)),
{
    reveal(GridMap::settled);
}

/// Where every place reached has been looked at, every place that the
/// agent can walk to is reached.
pub proof fn lemma_closed_holds_walks(map: GridMap, parents: Map<Pos, Pos>, path: Seq<Pos>, goal: Pos)
    requires
        parents.contains_key(map.agent()),
        map.settled(parents, Set::<Pos>::empty()),
        map.is_walk(path, goal),
    ensures
        parents.contains_key(goal),
    decreases path.len(),
{
    reveal(GridMap::settled);
    if path.len() > 1 {
        let before = path.drop_last();
        let via = before.last();
        assert forall|i: int| 0 < i < before.len() implies #[trigger] map.step(
            before[i - 1],
            before[i],
        ) by {
            assert(map.step(path[i - 1], path[i]));
        }
        lemma_closed_holds_walks(map, parents, before, via);
        assert(map.step(path[path.len() - 2], path[path.len() - 1]));
        assert(map.expanded(parents, via));
    }
}

/// Where a route leads to a place, the agent can walk there.
pub proof fn lemma_route_is_walk(map: GridMap, path: Seq<Pos>, goal: Pos)
    requires
        map.is_route(path, goal),
    ensures
        map.reachable(goal),
{
    if goal == map.agent() {
        let alone = seq![map.agent()];
        assert(map.is_walk(alone, goal));
    } else {
        assert(map.is_walk(path, goal));
    }
}

/// The places that wait in a queue.
pub open spec fn queued(frontier: Seq<Pos>) -> Set<Pos> {
    Set::new(|pos: Pos| frontier.contains(pos))
}

/// The places that wait with a priority.
pub open spec fn pending(frontier: Seq<PriorityState>) -> Set<Pos> {
    Set::new(|pos: Pos| exists|j: int| 0 <= j < frontier.len() && (#[trigger] frontier[j]).pos == pos)
}

/// When a state has left, the places that waited wait still, but possibly
/// the place that left.
pub proof fn lemma_pending_pop(before: Seq<PriorityState>, i: int)
    requires
        0 <= i < before.len(),
    ensures
        pending(before).subset_of(pending(before.remove(i)).insert(before[i].pos)),
        forall|j: int|
            0 <= j < before.remove(i).len() ==> pending(before).contains(
                (#[trigger] before.remove(i)[j]).pos,
            ),
{
    let after = before.remove(i);
    assert forall|p: Pos| pending(before).contains(p) implies pending(after).insert(
        before[i].pos,
    ).contains(p) by {
        let j = choose|j: int| 0 <= j < before.len() && (#[trigger] before[j]).pos == p;
        if j < i {
            assert(after[j].pos == p);
        } else if j > i {
            assert(after[j - 1].pos == p);
        }
    }
    assert forall|j: int| 0 <= j < after.len() implies pending(before).contains(
        (#[trigger] after[j]).pos,
    ) by {
        if j < i {
            assert(before[j].pos == after[j].pos);
        } else {
            assert(before[j + 1].pos == after[j].pos);
        }
    }
}

/// When a state has joined, its place waits with the places that waited.
pub proof fn lemma_pending_push(before: Seq<PriorityState>, state: PriorityState)
    ensures
        pending(before).insert(state.pos).subset_of(pending(before.push(state))),
{
    let after = before.push(state);
    assert forall|p: Pos| pending(before).insert(state.pos).contains(p) implies pending(
        after,
    ).contains(p) by {
        if p == state.pos {
            assert(after[before.len() as int].pos == p);
        } else {
            let j = choose|j: int| 0 <= j < before.len() && (#[trigger] before[j]).pos == p;
            assert(after[j].pos == p);
        }
    }
}

} // verus!
