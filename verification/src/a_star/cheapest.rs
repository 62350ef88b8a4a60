use vstd::prelude::*;
use crate::a_star::frontier::PriorityState;
use crate::a_star::grid::{GridMap, Pos};
use crate::a_star::history::{follows, lemma_traces_back_at, Ranking};

verus! {

impl GridMap {
    /// Whether no walk from the agent to `pos` costs less than the agent's
    /// cell and `cost`.
    pub open spec fn cheapest_at(self, pos: Pos, cost: nat) -> bool {
        forall|walk: Seq<Pos>| #[trigger]
            self.is_walk(walk, pos) ==> self.path_cost(walk) >= self.tread_cost(self.agent()) + cost
    }

    /// Whether some walk from the agent to `pos` costs no more than the
    /// agent's cell and `cost`.
    pub open spec fn attained_at(self, pos: Pos, cost: nat) -> bool {
        exists|walk: Seq<Pos>| #[trigger]
            self.is_walk(walk, pos) && self.path_cost(walk) <= self.tread_cost(self.agent()) + cost
    }

    /// Whether every step from `pos` leads to a place that was reached, at
    /// no more than the cost of `pos` and its own.
    pub open spec fn relaxed(self, parents: Map<Pos, Pos>, cost: Map<Pos, nat>, pos: Pos) -> bool {
        forall|to: Pos| #[trigger]
            self.step(pos, to) ==> parents.contains_key(to) && cost[to] <= cost[pos]
                + self.tread_cost(to)
    }

    /// What lowest cost first holds to be true: the cost of each place that
    /// was reached is that of some walk; a place that has left the frontier
    /// once is closed, no walk to it is cheaper than its cost, and, unless
    /// it is the current place, it is relaxed; every other place that was
    /// reached waits in the frontier at its cost; and nothing waits at less
    /// than the cost of its place.
    #[verifier::opaque]
    pub open spec fn settling(
        self,
        parents: Map<Pos, Pos>,
        cost: Map<Pos, nat>,
        closed: Set<Pos>,
        keys: Seq<PriorityState>,
        current: Option<Pos>,
    ) -> bool {
        &&& parents.contains_key(self.agent())
        &&& cost[self.agent()] == 0
        &&& forall|pos: Pos| #[trigger]
            closed.contains(pos) ==> {
                &&& parents.contains_key(pos)
                &&& self.cheapest_at(pos, cost[pos])
                &&& current != Some(pos) ==> self.relaxed(parents, cost, pos)
            }
        &&& forall|pos: Pos| #[trigger]
            parents.contains_key(pos) ==> {
                &&& self.attained_at(pos, cost[pos])
                &&& !closed.contains(pos) ==> exists|j: int|
                    0 <= j < keys.len() && (#[trigger] keys[j]).pos == pos && keys[j].cost
                        == cost[pos]
            }
        &&& forall|j: int|
            0 <= j < keys.len() ==> parents.contains_key((#[trigger] keys[j]).pos) && keys[j].cost
                >= cost[keys[j].pos]
        &&& current matches Some(pos) ==> closed.contains(pos)
    }
}

/// A walk with one step more costs the cell it steps on more.
pub proof fn lemma_walk_extend(map: GridMap, walk: Seq<Pos>, end: Pos, to: Pos)
    requires
        map.is_walk(walk, end),
        map.step(end, to),
    ensures
        map.is_walk(walk.push(to), to),
        map.path_cost(walk.push(to)) == map.path_cost(walk) + map.tread_cost(to),
{
    let longer = walk.push(to);
    assert(longer.drop_last() =~= walk);
    assert forall|i: int| 0 < i < longer.len() implies #[trigger] map.step(
        longer[i - 1],
        longer[i],
    ) by {
        if i < walk.len() {
            assert(map.step(walk[i - 1], walk[i]));
        }
    }
}

/// Lowest cost first starts well.
pub proof fn lemma_settling_start(map: GridMap)
    ensures
        map.settling(
            Map::<Pos, Pos>::empty().insert(map.agent(), map.agent()),
            Map::<Pos, nat>::empty().insert(map.agent(), 0nat),
            Set::<Pos>::empty(),
            seq![PriorityState { cost: 0, pos: map.agent() }],
            None,
        ),
{
    reveal(GridMap::settling);
    let alone = seq![map.agent()];
    assert(alone.drop_last() =~= Seq::<Pos>::empty());
    assert(map.path_cost(alone.drop_last()) == 0);
    assert(map.is_walk(alone, map.agent()));
    assert(map.attained_at(map.agent(), 0));
    let keys = seq![PriorityState { cost: 0, pos: map.agent() }];
    assert(keys[0].pos == map.agent());
}

/// Where the closed places are relaxed and no open place was reached at
/// less than `least`, a walk either costs `least` at least, or ends at a
/// closed place and costs what that place costs at least; the cost of the
/// agent's cell comes on top of each.
pub proof fn lemma_walk_through_closed(
    map: GridMap,
    parents: Map<Pos, Pos>,
    cost: Map<Pos, nat>,
    closed: Set<Pos>,
    least: nat,
    walk: Seq<Pos>,
    end: Pos,
)
    requires
        map.costs_within(i32::MAX as nat),
        map.is_walk(walk, end),
        parents.contains_key(map.agent()),
        cost[map.agent()] == 0,
        forall|pos: Pos| #[trigger] closed.contains(pos) ==> map.relaxed(parents, cost, pos),
        forall|pos: Pos| #[trigger]
            parents.contains_key(pos) && !closed.contains(pos) ==> cost[pos] >= least,
    ensures
        map.path_cost(walk) >= map.tread_cost(map.agent()) + least || (closed.contains(end)
            && map.path_cost(walk) >= map.tread_cost(map.agent()) + cost[end]),
    decreases walk.len(),
{
    if walk.len() > 1 {
        let before = walk.drop_last();
        let via = before.last();
        assert forall|i: int| 0 < i < before.len() implies #[trigger] map.step(
            before[i - 1],
            before[i],
        ) by {
            assert(map.step(walk[i - 1], walk[i]));
        }
        lemma_walk_through_closed(map, parents, cost, closed, least, before, via);
        assert(map.step(walk[walk.len() - 2], walk[walk.len() - 1]));
        let at_end = map.cell(end);
        assert(0 <= map.tread_cost(end));
        if closed.contains(via) {
            assert(map.relaxed(parents, cost, via));
        }
    } else {
        assert(walk.drop_last() =~= Seq::<Pos>::empty());
        assert(map.path_cost(walk.drop_last()) == 0);
    }
}

/// Taking the state that no other outranks from the frontier closes its
/// place: no walk gets there at less than the place's cost.
pub proof fn lemma_settling_pop(
    map: GridMap,
    parents: Map<Pos, Pos>,
    cost: Map<Pos, nat>,
    closed: Set<Pos>,
    keys: Seq<PriorityState>,
    i: int,
)
    requires
        map.costs_within(i32::MAX as nat),
        map.settling(parents, cost, closed, keys, None),
        0 <= i < keys.len(),
        forall|j: int| 0 <= j < keys.len() ==> !(#[trigger] keys[j]).outranks(keys[i]),
    ensures
        map.settling(parents, cost, closed.insert(keys[i].pos), keys.remove(i), Some(keys[i].pos)),
{
    reveal(GridMap::settling);
    let current = keys[i].pos;
    let least = keys[i].cost as nat;
    let rest = keys.remove(i);
    let closed_after = closed.insert(current);
    assert forall|j: int| 0 <= j < keys.len() implies (#[trigger] keys[j]).cost >= least by {
        assert(!keys[j].outranks(keys[i]));
    }
    if !closed.contains(current) {
        let own = choose|j: int|
            0 <= j < keys.len() && (#[trigger] keys[j]).pos == current && keys[j].cost
                == cost[current];
        assert(cost[current] == least);
        assert forall|pos: Pos| #[trigger]
            parents.contains_key(pos) && !closed.contains(pos) implies cost[pos] >= least by {
            let j = choose|j: int|
                0 <= j < keys.len() && (#[trigger] keys[j]).pos == pos && keys[j].cost == cost[pos];
        }
        assert forall|walk: Seq<Pos>| #[trigger] map.is_walk(walk, current) implies map.path_cost(
            walk,
        ) >= map.tread_cost(map.agent()) + cost[current] by {
            lemma_walk_through_closed(map, parents, cost, closed, least, walk, current);
        }
    }
    assert forall|pos: Pos| #[trigger] parents.contains_key(pos) implies {
        &&& map.attained_at(pos, cost[pos])
        &&& !closed_after.contains(pos) ==> exists|j: int|
            0 <= j < rest.len() && (#[trigger] rest[j]).pos == pos && rest[j].cost == cost[pos]
    } by {
        if !closed_after.contains(pos) {
            let j = choose|j: int|
                0 <= j < keys.len() && (#[trigger] keys[j]).pos == pos && keys[j].cost == cost[pos];
            if j < i {
                assert(rest[j] == keys[j]);
            } else {
                assert(rest[j - 1] == keys[j]);
            }
        }
    }
    assert forall|j: int| 0 <= j < rest.len() implies parents.contains_key(
        (#[trigger] rest[j]).pos,
    ) && rest[j].cost >= cost[rest[j].pos] by {
        if j < i {
            assert(rest[j] == keys[j]);
        } else {
            assert(rest[j] == keys[j + 1]);
        }
    }
}

/// Reaching a place from the current place, at the cost of the current
/// place and its own, and at less than before if it was reached before,
/// and putting it into the frontier at that cost keeps all this; the place
/// is not a closed one.
pub proof fn lemma_settling_relax(
    map: GridMap,
    parents: Map<Pos, Pos>,
    cost: Map<Pos, nat>,
    closed: Set<Pos>,
    keys: Seq<PriorityState>,
    current: Pos,
    pos: Pos,
    new_cost: usize,
)
    requires
        map.costs_within(i32::MAX as nat),
        map.settling(parents, cost, closed, keys, Some(current)),
        map.step(current, pos),
        pos != current,
        new_cost == cost[current] + map.tread_cost(pos),
        parents.contains_key(pos) ==> new_cost < cost[pos],
    ensures
        !closed.contains(pos),
        map.settling(
            parents.insert(pos, current),
            cost.insert(pos, new_cost as nat),
            closed,
            keys.push(PriorityState { cost: new_cost, pos }),
            Some(current),
        ),
{
    reveal(GridMap::settling);
    let parents_after = parents.insert(pos, current);
    let cost_after = cost.insert(pos, new_cost as nat);
    let keys_after = keys.push(PriorityState { cost: new_cost, pos });
    assert(closed.contains(current));
    assert(parents.contains_key(current));
    let to_current = choose|walk: Seq<Pos>| #[trigger]
        map.is_walk(walk, current) && map.path_cost(walk) <= map.tread_cost(map.agent())
            + cost[current];
    lemma_walk_extend(map, to_current, current, pos);
    let to_pos = to_current.push(pos);
    assert(map.is_walk(to_pos, pos));
    if closed.contains(pos) {
        assert(map.cheapest_at(pos, cost[pos]));
        assert(map.path_cost(to_pos) >= map.tread_cost(map.agent()) + cost[pos]);
    }
    assert(map.attained_at(pos, new_cost as nat));
    assert forall|at: Pos| #[trigger] closed.contains(at) implies {
        &&& parents_after.contains_key(at)
        &&& map.cheapest_at(at, cost_after[at])
        &&& Some(current) != Some(at) ==> map.relaxed(parents_after, cost_after, at)
    } by {
        if current != at {
            assert(map.relaxed(parents, cost, at));
            assert forall|to: Pos| #[trigger] map.step(at, to) implies parents_after.contains_key(
                to,
            ) && cost_after[to] <= cost_after[at] + map.tread_cost(to) by {
                assert(parents.contains_key(to));
            }
        }
    }
    assert forall|at: Pos| #[trigger] parents_after.contains_key(at) implies {
        &&& map.attained_at(at, cost_after[at])
        &&& !closed.contains(at) ==> exists|j: int|
            0 <= j < keys_after.len() && (#[trigger] keys_after[j]).pos == at && keys_after[j].cost
                == cost_after[at]
    } by {
        if at == pos {
            assert(keys_after[keys.len() as int].pos == pos);
        } else {
            assert(parents.contains_key(at));
            assert(map.attained_at(at, cost[at]));
            if !closed.contains(at) {
                let j = choose|j: int|
                    0 <= j < keys.len() && (#[trigger] keys[j]).pos == at && keys[j].cost
                        == cost[at];
                assert(keys_after[j] == keys[j]);
            }
        }
    }
    assert forall|j: int| 0 <= j < keys_after.len() implies parents_after.contains_key(
        (#[trigger] keys_after[j]).pos,
    ) && keys_after[j].cost >= cost_after[keys_after[j].pos] by {
        if j < keys.len() {
            assert(keys_after[j] == keys[j]);
        }
    }
}

/// What lowest cost first knows of the current place and of a place that
/// was reached.
pub proof fn lemma_settling_at(
    map: GridMap,
    parents: Map<Pos, Pos>,
    cost: Map<Pos, nat>,
    closed: Set<Pos>,
    keys: Seq<PriorityState>,
    current: Pos,
    pos: Pos,
)
    requires
        map.settling(parents, cost, closed, keys, Some(current)),
    ensures
        parents.contains_key(current),
        closed.contains(current),
        closed.contains(pos) ==> map.cheapest_at(pos, cost[pos]),
{
    reveal(GridMap::settling);
}

/// When the current place is relaxed, no place is current.
pub proof fn lemma_settling_done(
    map: GridMap,
    parents: Map<Pos, Pos>,
    cost: Map<Pos, nat>,
    closed: Set<Pos>,
    keys: Seq<PriorityState>,
    current: Pos,
)
    requires
        map.settling(parents, cost, closed, keys, Some(current)),
        map.relaxed(parents, cost, current),
    ensures
        map.settling(parents, cost, closed, keys, None),
{
    reveal(GridMap::settling);
}

/// A place that was reached and that is closed, or was reached when
/// nothing waits any more, was reached at the least cost.
pub proof fn lemma_settling_final(
    map: GridMap,
    parents: Map<Pos, Pos>,
    cost: Map<Pos, nat>,
    closed: Set<Pos>,
    keys: Seq<PriorityState>,
    current: Option<Pos>,
    goal: Pos,
)
    requires
        map.settling(parents, cost, closed, keys, current),
        parents.contains_key(goal),
        closed.contains(goal) || keys.len() == 0,
    ensures
        map.cheapest_at(goal, cost[goal]),
{
    reveal(GridMap::settling);
}

/// A path that follows the parents from the agent on, and does not come
/// back to the agent, costs no more than the agent's cell and the cost at
/// which its end was reached.
pub proof fn lemma_route_cost(
    map: GridMap,
    parents: Map<Pos, Pos>,
    ranking: Ranking,
    path: Seq<Pos>,
    n: int,
)
    requires
        map.traces_back(parents, ranking),
        ranking.cost[map.agent()] == 0,
        path.len() >= 1,
        path.first() == map.agent(),
        forall|i: int| 0 < i < path.len() ==> #[trigger] follows(parents, path, i),
        forall|i: int| 0 < i < path.len() ==> (#[trigger] path[i]) != map.agent(),
        0 <= n < path.len(),
    ensures
        map.path_cost(path.take(n + 1)) <= map.tread_cost(map.agent()) + ranking.cost[path[n]],
    decreases n,
{
    let part = path.take(n + 1);
    if n == 0 {
        assert(part.drop_last() =~= Seq::<Pos>::empty());
        assert(map.path_cost(part.drop_last()) == 0);
    } else {
        lemma_route_cost(map, parents, ranking, path, n - 1);
        assert(part.drop_last() =~= path.take(n));
        assert(follows(parents, path, n));
        lemma_traces_back_at(map, parents, ranking, path[n]);
    }
}

} // verus!
