use vstd::prelude::*;
use vstd::std_specs::hash::group_hash_axioms;
use std::collections::HashMap;
use crate::a_star::grid::{GridMap, MapNode, Pos};

verus! {

/// The number under which a map from places keeps `pos`: row and column,
/// each moved up into the non-negative numbers, side by side.
pub open spec fn key_of(pos: Pos) -> u64 {
    ((pos.0 + 0x8000_0000) * 0x1_0000_0000 + (pos.1 + 0x8000_0000)) as u64
}

/// The place that is kept under `key`.
pub open spec fn pos_of(key: u64) -> Pos {
    ((key / 0x1_0000_0000 - 0x8000_0000) as i32, (key % 0x1_0000_0000 - 0x8000_0000) as i32)
}

/// Each place has a number of its own.
pub proof fn lemma_key_of_pos(pos: Pos)
    ensures
        pos_of(key_of(pos)) == pos,
        key_of(pos) == (pos.0 + 0x8000_0000) * 0x1_0000_0000 + (pos.1 + 0x8000_0000),
{
}

/// The number under which `pos` is kept.
pub fn key(pos: Pos) -> (k: u64)
    ensures
        k == key_of(pos),
{
    let row: u64 = (pos.0 as i64 + 0x8000_0000) as u64;
    let col: u64 = (pos.1 as i64 + 0x8000_0000) as u64;
    row * 0x1_0000_0000 + col
}

/// A map kept under numbers, read as a map from places.
pub open spec fn by_pos<V>(m: Map<u64, V>) -> Map<Pos, V> {
    Map::new(|pos: Pos| m.contains_key(key_of(pos)), |pos: Pos| m[key_of(pos)])
}

/// Putting a value under the number of a place puts it at that place.
pub proof fn lemma_by_pos_insert<V>(m: Map<u64, V>, pos: Pos, value: V)
    ensures
        by_pos(m.insert(key_of(pos), value)) == by_pos(m).insert(pos, value),
{
    assert forall|p: Pos| p != pos implies key_of(p) != key_of(pos) by {
        lemma_key_of_pos(p);
        lemma_key_of_pos(pos);
    }
    assert(by_pos(m.insert(key_of(pos), value)) =~= by_pos(m).insert(pos, value));
}

/// How the search ranks a place it has reached: by the cost at which it
/// reached it and, at equal cost, by when.
pub struct Ranking {
    pub cost: Map<Pos, nat>,
    pub stamp: Map<Pos, nat>,
}

impl Ranking {
    /// Whether `a` ranks below `b`.
    pub open spec fn below(self, a: Pos, b: Pos) -> bool {
        self.cost[a] < self.cost[b] || (self.cost[a] == self.cost[b] && self.stamp[a]
            < self.stamp[b])
    }
}

/// Whether the place at index `i` of `path` is in `parents` and has the
/// place before it as its parent.
pub open spec fn follows(parents: Map<Pos, Pos>, path: Seq<Pos>, i: int) -> bool {
    parents.contains_key(path[i]) && parents[path[i]] == path[i - 1]
}

/// Whether the place at index `i` of `path` is the parent of the place
/// before it, which is in `parents`.
pub open spec fn leads(parents: Map<Pos, Pos>, path: Seq<Pos>, i: int) -> bool {
    parents.contains_key(path[i - 1]) && parents[path[i - 1]] == path[i]
}

/// What a search found.
pub struct PathfindingResult {
    /// How many places the search reached.
    pub nodes_visited: usize,
    /// What the cells of the path cost, taken together.
    pub cost_of_path: usize,
    /// The path, from the agent to the goal.
    pub path: Vec<Pos>,
}

impl GridMap {
    /// What the cell at `pos` adds to the cost of a path: the cost of open
    /// ground, nothing for anything else.
    pub open spec fn tread_cost(self, pos: Pos) -> int {
        match self.cell(pos) {
            Some(MapNode::Path(c)) => c as int,
            _ => 0,
        }
    }

    /// What the cells of `path` cost, taken together.
    pub open spec fn path_cost(self, path: Seq<Pos>) -> int
        decreases path.len(),
    {
        if path.len() == 0 {
            0
        } else {
            self.path_cost(path.drop_last()) + self.tread_cost(path.last())
        }
    }

    /// No open ground has a negative cost, or one above `limit`.
    pub open spec fn costs_within(self, limit: nat) -> bool {
        forall|pos: Pos|
            (#[trigger] self.cell(pos) matches Some(MapNode::Path(c)) ==> 0 <= c <= limit)
    }

    /// Whether `to` is one step from `from`: a neighbour of it, and open
    /// ground.
    pub open spec fn step(self, from: Pos, to: Pos) -> bool {
        self.walkable_neighbors(from).contains(to)
    }

    /// Whether `path` leads from the agent to `goal` step by step. The way
    /// from the agent to itself is the agent twice.
    pub open spec fn is_route(self, path: Seq<Pos>, goal: Pos) -> bool {
        &&& path.len() >= 2
        &&& path.first() == self.agent()
        &&& path.last() == goal
        &&& if goal == self.agent() {
            path.len() == 2
        } else {
            forall|i: int| 0 < i < path.len() ==> #[trigger] self.step(path[i - 1], path[i])
        }
    }

    /// Whether `parents` leads back from every place in it to the agent:
    /// the agent is its own parent, every other place is open ground one
    /// step from its parent, and the parent ranks below it and was reached
    /// at a cost that is lower by at least the cost of the place.
    #[verifier::opaque]
    pub open spec fn traces_back(self, parents: Map<Pos, Pos>, ranking: Ranking) -> bool {
        &&& parents.contains_key(self.agent())
        &&& parents[self.agent()] == self.agent()
        &&& forall|pos: Pos|
            #[trigger] parents.contains_key(pos) && pos != self.agent() ==> {
                &&& parents.contains_key(parents[pos])
                &&& self.step(parents[pos], pos)
                &&& ranking.below(parents[pos], pos)
                &&& ranking.cost[parents[pos]] + self.tread_cost(pos) <= ranking.cost[pos]
            }
    }

    /// Whether the path from the agent to `goal` that `parents` holds can
    /// be followed and paid: `parents` leads back to the agent under some
    /// ranking, and the cost at which `goal` was reached, with twice the
    /// cost of the agent's cell, is a `usize`.
    pub open spec fn can_construct(self, parents: Map<Pos, Pos>, goal: Pos) -> bool {
        exists|ranking: Ranking| #[trigger]
            self.traces_back(parents, ranking) && (parents.contains_key(goal)
                ==> ranking.cost[goal] + 2 * self.tread_cost(self.agent()) <= usize::MAX)
    }
}

/// What leading back to the agent says of the agent: it is its own parent.
pub proof fn lemma_traces_back_agent(map: GridMap, parents: Map<Pos, Pos>, ranking: Ranking)
    requires
        map.traces_back(parents, ranking),
    ensures
        parents.contains_key(map.agent()),
        parents[map.agent()] == map.agent(),
{
    reveal(GridMap::traces_back);
}

/// What leading back to the agent says of one place and its parent.
pub proof fn lemma_traces_back_at(map: GridMap, parents: Map<Pos, Pos>, ranking: Ranking, pos: Pos)
    requires
        map.traces_back(parents, ranking),
        parents.contains_key(pos),
    ensures
        parents.contains_key(parents[pos]),
        pos != map.agent() ==> {
            &&& map.step(parents[pos], pos)
            &&& ranking.below(parents[pos], pos)
            &&& ranking.cost[parents[pos]] + map.tread_cost(pos) <= ranking.cost[pos]
        },
{
    reveal(GridMap::traces_back);
}

/// A cell in front of a path adds its cost to that of the path.
pub proof fn lemma_path_cost_prepend(map: GridMap, pos: Pos, path: Seq<Pos>)
    ensures
        map.path_cost(seq![pos] + path) == map.tread_cost(pos) + map.path_cost(path),
    decreases path.len(),
{
    let whole = seq![pos] + path;
    if path.len() == 0 {
        assert(whole.drop_last() =~= Seq::<Pos>::empty());
        assert(map.path_cost(whole.drop_last()) == 0);
    } else {
        assert(whole.drop_last() =~= seq![pos] + path.drop_last());
        lemma_path_cost_prepend(map, pos, path.drop_last());
    }
}

/// A path costs the same in either direction.
pub proof fn lemma_path_cost_reverse(map: GridMap, path: Seq<Pos>)
    ensures
        map.path_cost(path.reverse()) == map.path_cost(path),
    decreases path.len(),
{
    if path.len() == 0 {
        assert(path.reverse() =~= path);
    } else {
        assert(path.reverse() =~= seq![path.last()] + path.drop_last().reverse());
        lemma_path_cost_prepend(map, path.last(), path.drop_last().reverse());
        lemma_path_cost_reverse(map, path.drop_last());
    }
}

/// Where no cost is negative, the beginning of a path costs no more than
/// the whole of it.
pub proof fn lemma_path_cost_prefix(map: GridMap, path: Seq<Pos>, n: int)
    requires
        map.costs_within(i32::MAX as nat),
        0 <= n <= path.len(),
    ensures
        0 <= map.path_cost(path.take(n)) <= map.path_cost(path),
    decreases path.len() - n,
{
    if n == path.len() {
        assert(path.take(n) =~= path);
        lemma_path_cost_nonnegative(map, path);
    } else {
        lemma_path_cost_prefix(map, path, n + 1);
        assert(path.take(n + 1).drop_last() =~= path.take(n));
        let was = map.cell(path[n]);
        lemma_path_cost_nonnegative(map, path.take(n));
    }
}

/// Where no cost is negative, no path has a negative cost.
pub proof fn lemma_path_cost_nonnegative(map: GridMap, path: Seq<Pos>)
    requires
        map.costs_within(i32::MAX as nat),
    ensures
        0 <= map.path_cost(path),
    decreases path.len(),
{
    if path.len() > 0 {
        lemma_path_cost_nonnegative(map, path.drop_last());
        let was = map.cell(path.last());
    }
}

impl GridMap {
    /// Follows `history` back from `goal` to the agent and returns the path
    /// the other way round, with its cost and the number of places in
    /// `history`; nothing if `history` does not hold `goal`.
    pub fn construct_path(&self, goal: Pos, history: &HashMap<u64, Pos>) -> (found: Option<
        PathfindingResult,
    >)
        requires
            self.costs_within(i32::MAX as nat),
            self.can_construct(by_pos(history@), goal),
        ensures
            found.is_some() == by_pos(history@).contains_key(goal),
            found matches Some(r) ==> {
                &&& self.is_route(r.path@, goal)
                &&& forall|i: int|
                    0 < i < r.path@.len() ==> #[trigger] follows(by_pos(history@), r.path@, i)
                &&& goal != self.agent() ==> forall|i: int|
                    0 < i < r.path@.len() ==> (#[trigger] r.path@[i]) != self.agent()
                &&& r.cost_of_path == self.path_cost(r.path@)
                &&& r.nodes_visited == history@.len()
            },
    {
        broadcast use group_hash_axioms;

        let ghost parents = by_pos(history@);
        let ghost ranking = choose|ranking: Ranking| #[trigger]
            self.traces_back(parents, ranking) && (parents.contains_key(goal) ==> ranking.cost[goal]
                + 2 * self.tread_cost(self.agent()) <= usize::MAX);
        let agent_pos = self.agent_pos();
        let mut next: Option<&Pos> = history.get(&key(goal));
        if next.is_none() {
            return None;
        }
        let mut path: Vec<Pos> = Vec::new();
        path.push(goal);
        proof {
            assert(path@.drop_last() =~= Seq::<Pos>::empty());
            assert(self.path_cost(path@.drop_last()) == 0);
            let was = self.cell(goal);
        }
        loop
            invariant_except_break
                next matches Some(n) && *n == parents[path@.last()],
                path@.len() > 1 ==> path@.last() != agent_pos,
                goal == agent_pos ==> path@.len() == 1,
                self.path_cost(path@) + ranking.cost[path@.last()] <= ranking.cost[goal]
                    + self.tread_cost(path@.last()),
            invariant
                agent_pos == self.agent(),
                parents == by_pos(history@),
                self.costs_within(i32::MAX as nat),
                self.traces_back(parents, ranking),
                ranking.cost[goal] + 2 * self.tread_cost(self.agent()) <= usize::MAX,
                path@.len() >= 1,
                path@[0] == goal,
                parents.contains_key(path@.last()),
                parents.contains_key(goal),
                forall|i: int| 0 < i < path@.len() ==> #[trigger] leads(parents, path@, i),
                forall|i: int|
                    0 < i < path@.len() - 1 ==> (#[trigger] path@[i]) != agent_pos,
            ensures
                path@.len() >= 2,
                path@.last() == agent_pos,
                goal != agent_pos ==> path@[0] != agent_pos,
                goal == agent_pos ==> path@.len() == 2,
                self.path_cost(path@) <= usize::MAX,
                forall|i: int|
                    0 < i < path@.len() - 1 ==> (#[trigger] path@[i]) != agent_pos,
            decreases ranking.cost[path@.last()], ranking.stamp[path@.last()],
        {
            let n: Pos = match next {
                Some(n) => *n,
                None => { (0, 0) },
            };
            let ghost before = path@;
            let ghost last = path@.last();
            path.push(n);
            proof {
                assert(path@.drop_last() =~= before);
                lemma_traces_back_agent(*self, parents, ranking);
                lemma_traces_back_at(*self, parents, ranking, last);
                assert forall|i: int| 0 < i < path@.len() implies #[trigger] leads(
                    parents,
                    path@,
                    i,
                ) by {
                    if i < before.len() {
                        assert(leads(parents, before, i));
                    }
                }
            }
            if n.0 == agent_pos.0 && n.1 == agent_pos.1 {
                break ;
            }
            next = history.get(&key(n));
        }
        let ghost back = path@;
        let mut route: Vec<Pos> = Vec::new();
        let mut i: usize = path.len();
        while i > 0
            invariant
                i <= path@.len(),
                route@.len() == path@.len() - i,
                forall|j: int| 0 <= j < route@.len() ==> #[trigger] route@[j] == path@[path@.len() - 1 - j],
            decreases i,
        {
            i -= 1;
            route.push(path[i]);
        }
        proof {
            assert(route@ =~= back.reverse());
            lemma_path_cost_reverse(*self, back);
        }
        let mut cost_of_path: usize = 0;
        let mut k: usize = 0;
        while k < route.len()
            invariant
                k <= route@.len(),
                self.costs_within(i32::MAX as nat),
                self.path_cost(route@) <= usize::MAX,
                cost_of_path == self.path_cost(route@.take(k as int)),
            decreases route@.len() - k,
        {
            proof {
                lemma_path_cost_prefix(*self, route@, k + 1);
                assert(route@.take(k + 1).drop_last() =~= route@.take(k as int));
            }
            let step: usize = match self.node(route[k]) {
                Some(MapNode::Path(cost)) => *cost as usize,
                _ => 0,
            };
            cost_of_path += step;
            k += 1;
        }
        proof {
            assert(route@.take(k as int) =~= route@);
            assert forall|i: int| 0 < i < route@.len() implies #[trigger] follows(
                parents,
                route@,
                i,
            ) by {
                let j = back.len() - 1 - i;
                assert(leads(parents, back, j + 1));
            }
            if goal != agent_pos {
                assert forall|i: int| 0 < i < route@.len() implies (#[trigger] route@[i])
                    != agent_pos by {
                    let j = back.len() - 1 - i;
                    assert(back[j] != agent_pos);
                }
                assert forall|i: int| 0 < i < route@.len() implies #[trigger] self.step(
                    route@[i - 1],
                    route@[i],
                ) by {
                    let j = back.len() - 1 - i;
                    assert(leads(parents, back, j + 1));
                    assert(back[j] != agent_pos);
                    lemma_traces_back_at(*self, parents, ranking, back[j]);
                }
            }
        }
        Some(PathfindingResult { cost_of_path, path: route, nodes_visited: history.len() })
    }
}

} // verus!
