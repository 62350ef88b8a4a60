use vstd::prelude::*;
use vstd::std_specs::hash::group_hash_axioms;
use std::collections::{HashMap, VecDeque};
use crate::a_star::bookkeeping::{
    lemma_reached_agent,
    lemma_reached_bounds,
    lemma_reached_insert,
    lemma_reached_none,
};
use crate::a_star::cheapest::{
    lemma_route_cost,
    lemma_settling_at,
    lemma_settling_done,
    lemma_settling_final,
    lemma_settling_pop,
    lemma_settling_relax,
    lemma_settling_start,
};
use crate::a_star::frontier::{Frontier, PriorityState};
use crate::a_star::grid::{manhattan, GridMap, MapNode, Pos};
use crate::a_star::history::{by_pos, follows, key, lemma_by_pos_insert, PathfindingResult};
use crate::a_star::progress::{
    lemma_assign,
    lemma_closed_holds_walks,
    lemma_pending_pop,
    lemma_pending_push,
    lemma_route_is_walk,
    lemma_searching_agent,
    lemma_searching_at,
    lemma_settled_assign,
    lemma_settled_done,
    lemma_settled_weaken,
    lemma_start,
    lemma_step,
    pending,
    queued,
    Progress,
};
use crate::a_star::shortest::{
    lemma_layered_at,
    lemma_layered_discover,
    lemma_layered_done,
    lemma_layered_pop,
    lemma_layered_start,
    lemma_route_steps,
};

verus! {

impl GridMap {
    /// What a search keeps up from beginning to end: the grid is sound and
    /// affordable, `history` holds the parents that the search has set,
    /// the search is well, something is left to gain or nothing, and
    /// `history` holds as many places as cells are reached, and the agent
    /// besides if it stands off the grid.
    pub open spec fn on_track(self, progress: Progress, limit: nat, history: Map<u64, Pos>) -> bool {
        &&& self.wf()
        &&& self.affordable_at(limit)
        &&& by_pos(history) == progress.parents
        &&& self.searching(progress, limit)
        &&& 0 <= self.measure(progress, limit)
        &&& history.len() == self.reached(progress.parents) + if self.contains(self.agent()) {
            0int
        } else {
            1int
        }
    }

    /// What every search ensures of what it returns: a path is found
    /// exactly if the agent can walk to `goal`, it leads there step by
    /// step, its cost is that of its cells, and the number of places
    /// reached lies between one and all cells with the agent.
    pub open spec fn answers(self, goal: Pos, found: Option<PathfindingResult>) -> bool {
        &&& found.is_some() == self.reachable(goal)
        &&& found matches Some(r) ==> {
            &&& self.is_route(r.path@, goal)
            &&& r.cost_of_path == self.path_cost(r.path@)
            &&& 1 <= r.nodes_visited <= self.cells() + 1
        }
    }

    /// Whether the path that was found, to a goal other than the agent,
    /// has as few steps as any walk from the agent to the goal.
    pub open spec fn fewest_steps(self, goal: Pos, found: Option<PathfindingResult>) -> bool {
        found matches Some(r) ==> goal != self.agent() ==> forall|walk: Seq<Pos>| #[trigger]
            self.is_walk(walk, goal) ==> r.path@.len() <= walk.len()
    }

    /// Breadth first: the places are looked at in the order in which they
    /// were reached. The path that is found has the fewest steps.
    pub fn find_path_bfs(&self, goal: Pos) -> (found: Option<PathfindingResult>)
        requires
            self.wf(),
            self.affordable(),
        ensures
            self.answers(goal, found),
            self.fewest_steps(goal, found),
    {
        broadcast use group_hash_axioms;

        let ghost limit = choose|limit: nat| #[trigger] self.affordable_at(limit);
        let agent = self.agent_pos();
        let mut frontier: VecDeque<Pos> = VecDeque::new();
        frontier.push_front(agent);
        let mut history: HashMap<u64, Pos> = HashMap::new();
        history.insert(key(agent), agent);
        let ghost mut progress = Progress::start(agent);
        let ghost mut depth = Map::<Pos, nat>::empty().insert(agent, 0nat);
        let ghost mut floor: nat = 0;
        let ghost mut layer_queue = seq![agent];
        let ghost mut layer_current: Option<Pos> = None;
        proof {
            lemma_start(*self, limit);
            lemma_layered_start(*self);
            lemma_by_pos_insert(Map::<u64, Pos>::empty(), agent, agent);
            assert(by_pos(Map::<u64, Pos>::empty()) =~= Map::<Pos, Pos>::empty());
            assert(frontier@.len() == 1 && frontier@[0] == agent);
            assert(frontier@ =~= layer_queue);
            assert(queued(frontier@) =~= Set::<Pos>::empty().insert(agent));
            lemma_reached_insert(*self, Map::<Pos, Pos>::empty(), agent, agent);
            lemma_reached_none(*self);
        }
        while frontier.len() > 0
            invariant_except_break
                self.settled(progress.parents, queued(frontier@)),
                layer_queue == frontier@,
                layer_current.is_none(),
            invariant
                self.layered(progress.parents, depth, layer_queue, floor, layer_current),
                self.on_track(progress, limit, history@),
                agent == self.agent(),
                forall|j: int|
                    0 <= j < frontier@.len() ==> progress.parents.contains_key(
                        #[trigger] frontier@[j],
                    ),
            ensures
                progress.parents.contains_key(goal) || (frontier@.len() == 0 && self.settled(
                    progress.parents,
                    queued(frontier@),
                )),
            decreases 2 * self.measure(progress, limit) + frontier@.len(),
        {
            let ghost queue_before = frontier@;
            let current: Pos = match frontier.pop_back() {
                Some(current) => current,
                None => agent,
            };
            proof {
                assert(current == queue_before.last());
                assert(frontier@ =~= queue_before.drop_last());
                lemma_layered_pop(*self, progress.parents, depth, queue_before, floor);
                floor = depth[current];
                layer_queue = frontier@;
                layer_current = Some(current);
                assert(progress.parents.contains_key(current));
                assert forall|p: Pos| queued(queue_before).contains(p) implies queued(
                    frontier@,
                ).insert(current).contains(p) by {
                    let j = choose|j: int| 0 <= j < queue_before.len() && queue_before[j] == p;
                    if j < queue_before.len() - 1 {
                        assert(frontier@[j] == p);
                    }
                }
                lemma_settled_weaken(
                    *self,
                    progress.parents,
                    queued(queue_before),
                    queued(frontier@).insert(current),
                );
            }
            if current.0 == goal.0 && current.1 == goal.1 {
                break ;
            }
            let ghost all = self.walkable_neighbors(current);
            let ghost mut seen: int = 0;
            let ghost budget = 2 * self.measure(progress, limit) + frontier@.len();
            proof {
                lemma_searching_at(*self, progress, limit, current);
            }
            let mut iter = self.neighbors(current);
            loop
                invariant_except_break
                    all.skip(seen) == iter.remaining(),
                invariant
                    self.layered(progress.parents, depth, frontier@, floor, Some(current)),
                    layer_queue == frontier@,
                    layer_current == Some(current),
                    forall|j: int| 0 <= j < seen ==> depth[#[trigger] all[j]] <= floor + 1,
                    self.on_track(progress, limit, history@),
                    agent == self.agent(),
                    iter.wf(),
                    iter.mid() == current,
                    iter.rows() == self.rows(),
                    iter.size() == self.size(),
                    all == self.walkable_neighbors(current),
                    0 <= seen <= all.len(),
                    forall|j: int| 0 <= j < seen ==> progress.parents.contains_key(#[trigger] all[j]),
                    progress.parents.contains_key(current),
                    self.settled(progress.parents, queued(frontier@).insert(current)),
                    forall|j: int|
                        0 <= j < frontier@.len() ==> progress.parents.contains_key(
                            #[trigger] frontier@[j],
                        ),
                    2 * self.measure(progress, limit) + frontier@.len() <= budget,
                ensures
                    seen == all.len(),
                decreases iter.remaining().len(),
            {
                let neighbor: Pos = match iter.next() {
                    Some(neighbor) => neighbor,
                    None => {
                        break ;
                    },
                };
                proof {
                    assert(neighbor == all[seen]);
                    assert(self.step(current, neighbor));
                    assert(all.skip(seen).drop_first() =~= all.skip(seen + 1));
                }
                if !history.contains_key(&key(neighbor)) {
                    let ghost queue = frontier@;
                    let ghost before = progress;
                    let ghost known = history@;
                    frontier.push_front(neighbor);
                    history.insert(key(neighbor), current);
                    proof {
                        let c = (before.ranking.cost[current] + self.tread_cost(neighbor)) as nat;
                        lemma_step(*self, current, neighbor);
                        let was = self.cell(neighbor);
                        progress = before.assign(neighbor, current, c);
                        lemma_assign(*self, before, limit, neighbor, current, c);
                        lemma_layered_discover(
                            *self,
                            before.parents,
                            depth,
                            queue,
                            floor,
                            current,
                            neighbor,
                        );
                        depth = depth.insert(neighbor, floor + 1);
                        layer_queue = frontier@;
                        lemma_by_pos_insert(known, neighbor, current);
                        lemma_settled_assign(
                            *self,
                            before.parents,
                            queued(queue).insert(current),
                            neighbor,
                            current,
                        );
                        assert forall|p: Pos|
                            queued(queue).insert(current).insert(neighbor).contains(p) implies queued(
                            frontier@,
                        ).insert(current).contains(p) by {
                            if p == neighbor {
                                assert(frontier@[0] == p);
                            } else if p != current {
                                let j = choose|j: int| 0 <= j < queue.len() && queue[j] == p;
                                assert(frontier@[j + 1] == p);
                            }
                        }
                        lemma_settled_weaken(
                            *self,
                            progress.parents,
                            queued(queue).insert(current).insert(neighbor),
                            queued(frontier@).insert(current),
                        );
                    }
                }
                proof {
                    lemma_layered_at(
                        *self,
                        progress.parents,
                        depth,
                        frontier@,
                        floor,
                        Some(current),
                        neighbor,
                    );
                    seen = seen + 1;
                }
            }
            proof {
                assert(self.expanded(progress.parents, current)) by {
                    assert forall|to: Pos| #[trigger]
                        self.step(current, to) implies progress.parents.contains_key(to) by {
                        let j = choose|j: int| 0 <= j < all.len() && all[j] == to;
                    }
                }
                lemma_layered_at(
                    *self,
                    progress.parents,
                    depth,
                    frontier@,
                    floor,
                    Some(current),
                    current,
                );
                assert(self.looked_at(progress.parents, depth, current)) by {
                    assert forall|to: Pos| #[trigger]
                        self.step(current, to) implies progress.parents.contains_key(to)
                        && depth[to] <= depth[current] + 1 by {
                        let j = choose|j: int| 0 <= j < all.len() && all[j] == to;
                    }
                }
                lemma_layered_done(*self, progress.parents, depth, frontier@, floor, current);
                layer_current = None;
                lemma_settled_done(
                    *self,
                    progress.parents,
                    queued(frontier@).insert(current),
                    current,
                );
                lemma_settled_weaken(
                    *self,
                    progress.parents,
                    queued(frontier@).insert(current).remove(current),
                    queued(frontier@),
                );
            }
        }
        proof {
            if !progress.parents.contains_key(goal) {
                assert(queued(frontier@) =~= Set::<Pos>::empty());
            }
        }
        let found = self.finish(goal, &history, Ghost(progress), Ghost(limit));
        proof {
            if found.is_some() && goal != agent {
                let path = found.unwrap().path@;
                lemma_route_steps(
                    *self,
                    progress.parents,
                    depth,
                    layer_queue,
                    floor,
                    layer_current,
                    path,
                    path.len() - 1,
                );
                lemma_layered_at(
                    *self,
                    progress.parents,
                    depth,
                    layer_queue,
                    floor,
                    layer_current,
                    goal,
                );
            }
        }
        found
    }

    /// Reads the answer off what a search has reached.
    fn finish(
        &self,
        goal: Pos,
        history: &HashMap<u64, Pos>,
        Ghost(progress): Ghost<Progress>,
        Ghost(limit): Ghost<nat>,
    ) -> (found: Option<PathfindingResult>)
        requires
            self.on_track(progress, limit, history@),
            progress.parents.contains_key(goal) || self.settled(
                progress.parents,
                Set::<Pos>::empty(),
            ),
        ensures
            self.answers(goal, found),
            found.is_some() == progress.parents.contains_key(goal),
            found matches Some(r) ==> {
                &&& forall|i: int|
                    0 < i < r.path@.len() ==> #[trigger] follows(progress.parents, r.path@, i)
                &&& goal != self.agent() ==> forall|i: int|
                    0 < i < r.path@.len() ==> (#[trigger] r.path@[i]) != self.agent()
            },
    {
        proof {
            lemma_searching_agent(*self, progress, limit);
            let at_agent = self.cell(self.agent());
            assert(0 <= self.tread_cost(self.agent()) <= limit);
            if progress.parents.contains_key(goal) {
                lemma_searching_at(*self, progress, limit, goal);
            }
            assert(limit * self.cells() + 2 * limit == limit * (self.cells() + 2))
                by (nonlinear_arith);
            assert(self.traces_back(progress.parents, progress.ranking) && (
            progress.parents.contains_key(goal) ==> progress.ranking.cost[goal] + 2
                * self.tread_cost(self.agent()) <= usize::MAX));
            assert(self.can_construct(by_pos(history@), goal));
            assert forall|pos: Pos|
                (#[trigger] self.cell(pos) matches Some(MapNode::Path(c)) ==> 0 <= c
                    <= i32::MAX as nat) by {}
            lemma_reached_bounds(*self, progress.parents);
            lemma_reached_agent(*self, progress.parents);
        }
        let found = self.construct_path(goal, history);
        proof {
            if found.is_some() {
                lemma_route_is_walk(*self, found.unwrap().path@, goal);
            } else if self.reachable(goal) {
                let path = choose|path: Seq<Pos>| #[trigger] self.is_walk(path, goal);
                lemma_closed_holds_walks(*self, progress.parents, path, goal);
            }
        }
        found
    }
}

impl GridMap {
    /// Whether the distance from `goal` to any cell of the grid can be
    /// worked out in `i32`.
    pub open spec fn heuristic_fits(self, goal: Pos) -> bool {
        forall|pos: Pos| #[trigger]
            self.contains(pos) ==> {
                &&& i32::MIN < goal.0 - pos.0 <= i32::MAX
                &&& i32::MIN < goal.1 - pos.1 <= i32::MAX
                &&& manhattan(goal, pos) <= i32::MAX
            }
    }

    /// Whether the path that was found, to a goal other than the agent,
    /// costs as little as any walk from the agent to the goal.
    pub open spec fn lowest_cost(self, goal: Pos, found: Option<PathfindingResult>) -> bool {
        found matches Some(r) ==> goal != self.agent() ==> forall|walk: Seq<Pos>| #[trigger]
            self.is_walk(walk, goal) ==> r.cost_of_path <= self.path_cost(walk)
    }

    /// Lowest cost first: of the places that wait, the one reached at the
    /// lowest cost is looked at next, and a place that is reached again at
    /// a lower cost waits again. The path that is found costs the least.
    pub fn find_path_dijkstra(&self, goal: Pos) -> (found: Option<PathfindingResult>)
        requires
            self.wf(),
            self.affordable(),
        ensures
            self.answers(goal, found),
            self.lowest_cost(goal, found),
    {
        broadcast use group_hash_axioms;

        let ghost limit = choose|limit: nat| #[trigger] self.affordable_at(limit);
        let agent = self.agent_pos();
        let mut frontier = Frontier::new();
        frontier.push(PriorityState { cost: 0, pos: agent });
        let mut history: HashMap<u64, Pos> = HashMap::new();
        history.insert(key(agent), agent);
        let mut cost_until: HashMap<u64, usize> = HashMap::new();
        cost_until.insert(key(agent), 0);
        let ghost mut progress = Progress::start(agent);
        let ghost mut closed = Set::<Pos>::empty();
        let ghost mut settle_current: Option<Pos> = None;
        proof {
            lemma_start(*self, limit);
            lemma_settling_start(*self);
            assert(frontier@ =~= seq![PriorityState { cost: 0, pos: agent }]);
            assert forall|pos: Pos|
                (#[trigger] self.cell(pos) matches Some(MapNode::Path(c)) ==> 0 <= c
                    <= i32::MAX as nat) by {}
            lemma_by_pos_insert(Map::<u64, Pos>::empty(), agent, agent);
            lemma_by_pos_insert(Map::<u64, usize>::empty(), agent, 0usize);
            assert(by_pos(Map::<u64, Pos>::empty()) =~= Map::<Pos, Pos>::empty());
            assert(by_pos(Map::<u64, usize>::empty()) =~= Map::<Pos, usize>::empty());
            assert(frontier@.len() == 1 && frontier@[0].pos == agent);
            assert(pending(frontier@) =~= Set::<Pos>::empty().insert(agent));
            lemma_reached_insert(*self, Map::<Pos, Pos>::empty(), agent, agent);
            lemma_reached_none(*self);
            assert(by_pos(cost_until@).dom() =~= progress.parents.dom());
        }
        while !frontier.is_empty()
            invariant_except_break
                self.settled(progress.parents, pending(frontier@)),
                settle_current.is_none(),
            invariant
                self.settling(
                    progress.parents,
                    progress.ranking.cost,
                    closed,
                    frontier@,
                    settle_current,
                ),
                self.costs_within(i32::MAX as nat),
                self.on_track(progress, limit, history@),
                agent == self.agent(),
                by_pos(cost_until@).dom() == progress.parents.dom(),
                forall|pos: Pos| #[trigger]
                    progress.parents.contains_key(pos) ==> by_pos(cost_until@)[pos]
                    == progress.ranking.cost[pos],
                forall|j: int|
                    0 <= j < frontier@.len() ==> progress.parents.contains_key(
                        (#[trigger] frontier@[j]).pos,
                    ),
            ensures
                progress.parents.contains_key(goal) || (frontier@.len() == 0 && self.settled(
                    progress.parents,
                    pending(frontier@),
                )),
                closed.contains(goal) || frontier@.len() == 0,
            decreases 2 * self.measure(progress, limit) + frontier@.len(),
        {
            let ghost waiting_before = frontier@;
            let current: PriorityState = match frontier.pop() {
                Some(current) => current,
                None => PriorityState { cost: 0, pos: agent },
            };
            proof {
                let i = choose|i: int|
                    0 <= i < waiting_before.len() && current == #[trigger] waiting_before[i]
                        && frontier@ == waiting_before.remove(i);
                lemma_pending_pop(waiting_before, i);
                lemma_settling_pop(
                    *self,
                    progress.parents,
                    progress.ranking.cost,
                    closed,
                    waiting_before,
                    i,
                );
                closed = closed.insert(current.pos);
                settle_current = Some(current.pos);
                assert(progress.parents.contains_key(current.pos));
                lemma_settled_weaken(
                    *self,
                    progress.parents,
                    pending(waiting_before),
                    pending(frontier@).insert(current.pos),
                );
                assert forall|j: int| 0 <= j < frontier@.len() implies progress.parents.contains_key(
                    (#[trigger] frontier@[j]).pos,
                ) by {
                    let p = frontier@[j].pos;
                    assert(pending(waiting_before).contains(p));
                    let k = choose|k: int|
                        0 <= k < waiting_before.len() && (#[trigger] waiting_before[k]).pos == p;
                }
            }
            if current.pos.0 == goal.0 && current.pos.1 == goal.1 {
                break ;
            }
            proof {
                lemma_settling_at(
                    *self,
                    progress.parents,
                    progress.ranking.cost,
                    closed,
                    frontier@,
                    current.pos,
                    current.pos,
                );
            }
            let ghost all = self.walkable_neighbors(current.pos);
            let ghost mut seen: int = 0;
            let ghost budget = 2 * self.measure(progress, limit) + frontier@.len();
            proof {
                lemma_searching_at(*self, progress, limit, current.pos);
            }
            let mut iter = self.neighbors(current.pos);
            loop
                invariant_except_break
                    all.skip(seen) == iter.remaining(),
                invariant
                    self.settling(
                        progress.parents,
                        progress.ranking.cost,
                        closed,
                        frontier@,
                        Some(current.pos),
                    ),
                    settle_current == Some(current.pos),
                    self.costs_within(i32::MAX as nat),
                    forall|j: int|
                        0 <= j < seen ==> progress.ranking.cost[#[trigger] all[j]]
                        <= progress.ranking.cost[current.pos] + self.tread_cost(all[j]),
                    self.on_track(progress, limit, history@),
                    agent == self.agent(),
                    iter.wf(),
                    iter.mid() == current.pos,
                    iter.rows() == self.rows(),
                    iter.size() == self.size(),
                    all == self.walkable_neighbors(current.pos),
                    0 <= seen <= all.len(),
                    forall|j: int| 0 <= j < seen ==> progress.parents.contains_key(#[trigger] all[j]),
                    by_pos(cost_until@).dom() == progress.parents.dom(),
                    forall|pos: Pos| #[trigger]
                        progress.parents.contains_key(pos) ==> by_pos(cost_until@)[pos]
                        == progress.ranking.cost[pos],
                    progress.parents.contains_key(current.pos),
                    self.settled(progress.parents, pending(frontier@).insert(current.pos)),
                    forall|j: int|
                        0 <= j < frontier@.len() ==> progress.parents.contains_key(
                            (#[trigger] frontier@[j]).pos,
                        ),
                    2 * self.measure(progress, limit) + frontier@.len() <= budget,
                ensures
                    seen == all.len(),
                decreases iter.remaining().len(),
            {
                let neighbor: Pos = match iter.next() {
                    Some(neighbor) => neighbor,
                    None => {
                        break ;
                    },
                };
                proof {
                    assert(neighbor == all[seen]);
                    assert(self.step(current.pos, neighbor));
                    assert(all.skip(seen).drop_first() =~= all.skip(seen + 1));
                    lemma_step(*self, current.pos, neighbor);
                    lemma_searching_at(*self, progress, limit, current.pos);
                    let was = self.cell(neighbor);
                    assert(progress.parents.dom().contains(current.pos));
                    assert(by_pos(cost_until@).contains_key(current.pos));
                    assert(limit * self.cells() + limit <= limit * (self.cells() + 2))
                        by (nonlinear_arith)
                        requires
                            0 <= limit,
                    ;
                }
                let base: usize = match cost_until.get(&key(current.pos)) {
                    Some(cost) => *cost,
                    None => 0,
                };
                let new_cost: usize = base + self.cost_adjacent(neighbor);
                let improves: bool = match cost_until.get(&key(neighbor)) {
                    Some(cost) => new_cost < *cost,
                    None => true,
                };
                proof {
                    assert(by_pos(cost_until@).contains_key(neighbor)
                        == progress.parents.dom().contains(neighbor));
                }
                if improves {
                    let ghost waiting = frontier@;
                    let ghost before = progress;
                    let ghost known = history@;
                    let ghost costs = cost_until@;
                    cost_until.insert(key(neighbor), new_cost);
                    frontier.push(PriorityState { cost: new_cost, pos: neighbor });
                    history.insert(key(neighbor), current.pos);
                    proof {
                        progress = before.assign(neighbor, current.pos, new_cost as nat);
                        lemma_assign(*self, before, limit, neighbor, current.pos, new_cost as nat);
                        lemma_settling_relax(
                            *self,
                            before.parents,
                            before.ranking.cost,
                            closed,
                            waiting,
                            current.pos,
                            neighbor,
                            new_cost,
                        );
                        lemma_by_pos_insert(known, neighbor, current.pos);
                        lemma_by_pos_insert(costs, neighbor, new_cost);
                        assert(by_pos(cost_until@).dom() =~= progress.parents.dom());
                        lemma_settled_assign(
                            *self,
                            before.parents,
                            pending(waiting).insert(current.pos),
                            neighbor,
                            current.pos,
                        );
                        lemma_pending_push(waiting, PriorityState { cost: new_cost, pos: neighbor });
                        lemma_settled_weaken(
                            *self,
                            progress.parents,
                            pending(waiting).insert(current.pos).insert(neighbor),
                            pending(frontier@).insert(current.pos),
                        );
                    }
                }
                proof {
                    seen = seen + 1;
                }
            }
            proof {
                assert(self.expanded(progress.parents, current.pos)) by {
                    assert forall|to: Pos| #[trigger]
                        self.step(current.pos, to) implies progress.parents.contains_key(to) by {
                        let j = choose|j: int| 0 <= j < all.len() && all[j] == to;
                    }
                }
                assert(self.relaxed(progress.parents, progress.ranking.cost, current.pos)) by {
                    assert forall|to: Pos| #[trigger]
                        self.step(current.pos, to) implies progress.parents.contains_key(to)
                        && progress.ranking.cost[to] <= progress.ranking.cost[current.pos]
                        + self.tread_cost(to) by {
                        let j = choose|j: int| 0 <= j < all.len() && all[j] == to;
                    }
                }
                lemma_settling_done(
                    *self,
                    progress.parents,
                    progress.ranking.cost,
                    closed,
                    frontier@,
                    current.pos,
                );
                settle_current = None;
                lemma_settled_done(
                    *self,
                    progress.parents,
                    pending(frontier@).insert(current.pos),
                    current.pos,
                );
                lemma_settled_weaken(
                    *self,
                    progress.parents,
                    pending(frontier@).insert(current.pos).remove(current.pos),
                    pending(frontier@),
                );
            }
        }
        proof {
            if !progress.parents.contains_key(goal) {
                assert(pending(frontier@) =~= Set::<Pos>::empty());
            }
        }
        let found = self.finish(goal, &history, Ghost(progress), Ghost(limit));
        proof {
            if found.is_some() && goal != agent {
                let path = found.unwrap().path@;
                lemma_searching_agent(*self, progress, limit);
                lemma_route_cost(*self, progress.parents, progress.ranking, path, path.len() - 1);
                assert(path.take(path.len() as int) =~= path);
                lemma_settling_final(
                    *self,
                    progress.parents,
                    progress.ranking.cost,
                    closed,
                    frontier@,
                    settle_current,
                    goal,
                );
            }
        }
        found
    }


    /// Nearest first: of the places that wait, the one nearest to `goal`
    /// is looked at next.
    pub fn find_path_gbfs(&self, goal: Pos) -> (found: Option<PathfindingResult>)
        requires
            self.wf(),
            self.affordable(),
            self.heuristic_fits(goal),
        ensures
            self.answers(goal, found),
    {
        broadcast use group_hash_axioms;

        let ghost limit = choose|limit: nat| #[trigger] self.affordable_at(limit);
        let agent = self.agent_pos();
        let mut frontier = Frontier::new();
        frontier.push(PriorityState { cost: 0, pos: agent });
        let mut history: HashMap<u64, Pos> = HashMap::new();
        history.insert(key(agent), agent);
        let ghost mut progress = Progress::start(agent);
        proof {
            lemma_start(*self, limit);
            lemma_by_pos_insert(Map::<u64, Pos>::empty(), agent, agent);
            assert(by_pos(Map::<u64, Pos>::empty()) =~= Map::<Pos, Pos>::empty());
            assert(frontier@.len() == 1 && frontier@[0].pos == agent);
            assert(pending(frontier@) =~= Set::<Pos>::empty().insert(agent));
            lemma_reached_insert(*self, Map::<Pos, Pos>::empty(), agent, agent);
            lemma_reached_none(*self);
        }
        while !frontier.is_empty()
            invariant_except_break
                self.settled(progress.parents, pending(frontier@)),
            invariant
                self.on_track(progress, limit, history@),
                self.heuristic_fits(goal),
                agent == self.agent(),
                forall|j: int|
                    0 <= j < frontier@.len() ==> progress.parents.contains_key(
                        (#[trigger] frontier@[j]).pos,
                    ),
            ensures
                progress.parents.contains_key(goal) || (frontier@.len() == 0 && self.settled(
                    progress.parents,
                    pending(frontier@),
                )),
            decreases 2 * self.measure(progress, limit) + frontier@.len(),
        {
            let ghost waiting_before = frontier@;
            let current: PriorityState = match frontier.pop() {
                Some(current) => current,
                None => PriorityState { cost: 0, pos: agent },
            };
            proof {
                let i = choose|i: int|
                    0 <= i < waiting_before.len() && current == #[trigger] waiting_before[i]
                        && frontier@ == waiting_before.remove(i);
                lemma_pending_pop(waiting_before, i);
                assert(progress.parents.contains_key(current.pos));
                lemma_settled_weaken(
                    *self,
                    progress.parents,
                    pending(waiting_before),
                    pending(frontier@).insert(current.pos),
                );
                assert forall|j: int| 0 <= j < frontier@.len() implies progress.parents.contains_key(
                    (#[trigger] frontier@[j]).pos,
                ) by {
                    let p = frontier@[j].pos;
                    assert(pending(waiting_before).contains(p));
                    let k = choose|k: int|
                        0 <= k < waiting_before.len() && (#[trigger] waiting_before[k]).pos == p;
                }
            }
            if current.pos.0 == goal.0 && current.pos.1 == goal.1 {
                break ;
            }
            let ghost all = self.walkable_neighbors(current.pos);
            let ghost mut seen: int = 0;
            let ghost budget = 2 * self.measure(progress, limit) + frontier@.len();
            proof {
                lemma_searching_at(*self, progress, limit, current.pos);
            }
            let mut iter = self.neighbors(current.pos);
            loop
                invariant_except_break
                    all.skip(seen) == iter.remaining(),
                invariant
                    self.on_track(progress, limit, history@),
                    self.heuristic_fits(goal),
                    agent == self.agent(),
                    iter.wf(),
                    iter.mid() == current.pos,
                    iter.rows() == self.rows(),
                    iter.size() == self.size(),
                    all == self.walkable_neighbors(current.pos),
                    0 <= seen <= all.len(),
                    forall|j: int| 0 <= j < seen ==> progress.parents.contains_key(#[trigger] all[j]),
                    progress.parents.contains_key(current.pos),
                    self.settled(progress.parents, pending(frontier@).insert(current.pos)),
                    forall|j: int|
                        0 <= j < frontier@.len() ==> progress.parents.contains_key(
                            (#[trigger] frontier@[j]).pos,
                        ),
                    2 * self.measure(progress, limit) + frontier@.len() <= budget,
                ensures
                    seen == all.len(),
                decreases iter.remaining().len(),
            {
                let neighbor: Pos = match iter.next() {
                    Some(neighbor) => neighbor,
                    None => {
                        break ;
                    },
                };
                proof {
                    assert(neighbor == all[seen]);
                    assert(self.step(current.pos, neighbor));
                    assert(all.skip(seen).drop_first() =~= all.skip(seen + 1));
                    lemma_step(*self, current.pos, neighbor);
                    let was = self.cell(neighbor);
                }
                if !history.contains_key(&key(neighbor)) {
                    let ghost waiting = frontier@;
                    let ghost before = progress;
                    let ghost known = history@;
                    let distance: usize = self.heuristic(goal, neighbor);
                    frontier.push(PriorityState { cost: distance, pos: neighbor });
                    history.insert(key(neighbor), current.pos);
                    proof {
                        let c = (before.ranking.cost[current.pos] + self.tread_cost(neighbor)) as nat;
                        progress = before.assign(neighbor, current.pos, c);
                        lemma_assign(*self, before, limit, neighbor, current.pos, c);
                        lemma_by_pos_insert(known, neighbor, current.pos);
                        lemma_settled_assign(
                            *self,
                            before.parents,
                            pending(waiting).insert(current.pos),
                            neighbor,
                            current.pos,
                        );
                        lemma_pending_push(waiting, PriorityState { cost: distance, pos: neighbor });
                        lemma_settled_weaken(
                            *self,
                            progress.parents,
                            pending(waiting).insert(current.pos).insert(neighbor),
                            pending(frontier@).insert(current.pos),
                        );
                    }
                }
                proof {
                    seen = seen + 1;
                }
            }
            proof {
                assert(self.expanded(progress.parents, current.pos)) by {
                    assert forall|to: Pos| #[trigger]
                        self.step(current.pos, to) implies progress.parents.contains_key(to) by {
                        let j = choose|j: int| 0 <= j < all.len() && all[j] == to;
                    }
                }
                lemma_settled_done(
                    *self,
                    progress.parents,
                    pending(frontier@).insert(current.pos),
                    current.pos,
                );
                lemma_settled_weaken(
                    *self,
                    progress.parents,
                    pending(frontier@).insert(current.pos).remove(current.pos),
                    pending(frontier@),
                );
            }
        }
        proof {
            if !progress.parents.contains_key(goal) {
                assert(pending(frontier@) =~= Set::<Pos>::empty());
            }
        }
        self.finish(goal, &history, Ghost(progress), Ghost(limit))
    }

    /// Lowest estimate first: of the places that wait, the one is looked
    /// at next for which the cost at which it was reached and its distance
    /// from `goal` add up to the least, and a place that is reached again
    /// at a lower cost waits again.
    pub fn find_path_a_star(&self, goal: Pos) -> (found: Option<PathfindingResult>)
        requires
            self.wf(),
            self.affordable(),
            self.heuristic_fits(goal),
        ensures
            self.answers(goal, found),
    {
        broadcast use group_hash_axioms;

        let ghost limit = choose|limit: nat| #[trigger] self.affordable_at(limit);
        let agent = self.agent_pos();
        let mut frontier = Frontier::new();
        frontier.push(PriorityState { cost: 0, pos: agent });
        let mut history: HashMap<u64, Pos> = HashMap::new();
        history.insert(key(agent), agent);
        let mut cost_until: HashMap<u64, usize> = HashMap::new();
        cost_until.insert(key(agent), 0);
        let ghost mut progress = Progress::start(agent);
        proof {
            lemma_start(*self, limit);
            lemma_by_pos_insert(Map::<u64, Pos>::empty(), agent, agent);
            lemma_by_pos_insert(Map::<u64, usize>::empty(), agent, 0usize);
            assert(by_pos(Map::<u64, Pos>::empty()) =~= Map::<Pos, Pos>::empty());
            assert(by_pos(Map::<u64, usize>::empty()) =~= Map::<Pos, usize>::empty());
            assert(frontier@.len() == 1 && frontier@[0].pos == agent);
            assert(pending(frontier@) =~= Set::<Pos>::empty().insert(agent));
            lemma_reached_insert(*self, Map::<Pos, Pos>::empty(), agent, agent);
            lemma_reached_none(*self);
            assert(by_pos(cost_until@).dom() =~= progress.parents.dom());
        }
        while !frontier.is_empty()
            invariant_except_break
                self.settled(progress.parents, pending(frontier@)),
            invariant
                self.on_track(progress, limit, history@),
                self.heuristic_fits(goal),
                agent == self.agent(),
                by_pos(cost_until@).dom() == progress.parents.dom(),
                forall|pos: Pos| #[trigger]
                    progress.parents.contains_key(pos) ==> by_pos(cost_until@)[pos]
                    == progress.ranking.cost[pos],
                forall|j: int|
                    0 <= j < frontier@.len() ==> progress.parents.contains_key(
                        (#[trigger] frontier@[j]).pos,
                    ),
            ensures
                progress.parents.contains_key(goal) || (frontier@.len() == 0 && self.settled(
                    progress.parents,
                    pending(frontier@),
                )),
            decreases 2 * self.measure(progress, limit) + frontier@.len(),
        {
            let ghost waiting_before = frontier@;
            let current: PriorityState = match frontier.pop() {
                Some(current) => current,
                None => PriorityState { cost: 0, pos: agent },
            };
            proof {
                let i = choose|i: int|
                    0 <= i < waiting_before.len() && current == #[trigger] waiting_before[i]
                        && frontier@ == waiting_before.remove(i);
                lemma_pending_pop(waiting_before, i);
                assert(progress.parents.contains_key(current.pos));
                lemma_settled_weaken(
                    *self,
                    progress.parents,
                    pending(waiting_before),
                    pending(frontier@).insert(current.pos),
                );
                assert forall|j: int| 0 <= j < frontier@.len() implies progress.parents.contains_key(
                    (#[trigger] frontier@[j]).pos,
                ) by {
                    let p = frontier@[j].pos;
                    assert(pending(waiting_before).contains(p));
                    let k = choose|k: int|
                        0 <= k < waiting_before.len() && (#[trigger] waiting_before[k]).pos == p;
                }
            }
            if current.pos.0 == goal.0 && current.pos.1 == goal.1 {
                break ;
            }
            let ghost all = self.walkable_neighbors(current.pos);
            let ghost mut seen: int = 0;
            let ghost budget = 2 * self.measure(progress, limit) + frontier@.len();
            proof {
                lemma_searching_at(*self, progress, limit, current.pos);
            }
            let mut iter = self.neighbors(current.pos);
            loop
                invariant_except_break
                    all.skip(seen) == iter.remaining(),
                invariant
                    self.on_track(progress, limit, history@),
                    self.heuristic_fits(goal),
                    agent == self.agent(),
                    iter.wf(),
                    iter.mid() == current.pos,
                    iter.rows() == self.rows(),
                    iter.size() == self.size(),
                    all == self.walkable_neighbors(current.pos),
                    0 <= seen <= all.len(),
                    forall|j: int| 0 <= j < seen ==> progress.parents.contains_key(#[trigger] all[j]),
                    by_pos(cost_until@).dom() == progress.parents.dom(),
                    forall|pos: Pos| #[trigger]
                        progress.parents.contains_key(pos) ==> by_pos(cost_until@)[pos]
                        == progress.ranking.cost[pos],
                    progress.parents.contains_key(current.pos),
                    self.settled(progress.parents, pending(frontier@).insert(current.pos)),
                    forall|j: int|
                        0 <= j < frontier@.len() ==> progress.parents.contains_key(
                            (#[trigger] frontier@[j]).pos,
                        ),
                    2 * self.measure(progress, limit) + frontier@.len() <= budget,
                ensures
                    seen == all.len(),
                decreases iter.remaining().len(),
            {
                let neighbor: Pos = match iter.next() {
                    Some(neighbor) => neighbor,
                    None => {
                        break ;
                    },
                };
                proof {
                    assert(neighbor == all[seen]);
                    assert(self.step(current.pos, neighbor));
                    assert(all.skip(seen).drop_first() =~= all.skip(seen + 1));
                    lemma_step(*self, current.pos, neighbor);
                    lemma_searching_at(*self, progress, limit, current.pos);
                    let was = self.cell(neighbor);
                    assert(progress.parents.dom().contains(current.pos));
                    assert(by_pos(cost_until@).contains_key(current.pos));
                    assert(limit * self.cells() + limit <= limit * (self.cells() + 2))
                        by (nonlinear_arith)
                        requires
                            0 <= limit,
                    ;
                }
                let base: usize = match cost_until.get(&key(current.pos)) {
                    Some(cost) => *cost,
                    None => 0,
                };
                let new_cost: usize = base + self.cost_adjacent(neighbor);
                let improves: bool = match cost_until.get(&key(neighbor)) {
                    Some(cost) => new_cost < *cost,
                    None => true,
                };
                proof {
                    assert(by_pos(cost_until@).contains_key(neighbor)
                        == progress.parents.dom().contains(neighbor));
                }
                if improves {
                    let ghost waiting = frontier@;
                    let ghost before = progress;
                    let ghost known = history@;
                    let ghost costs = cost_until@;
                    cost_until.insert(key(neighbor), new_cost);
                    let estimate: usize = new_cost + self.heuristic(goal, neighbor);
                    frontier.push(PriorityState { cost: estimate, pos: neighbor });
                    history.insert(key(neighbor), current.pos);
                    proof {
                        progress = before.assign(neighbor, current.pos, new_cost as nat);
                        lemma_assign(*self, before, limit, neighbor, current.pos, new_cost as nat);
                        lemma_by_pos_insert(known, neighbor, current.pos);
                        lemma_by_pos_insert(costs, neighbor, new_cost);
                        assert(by_pos(cost_until@).dom() =~= progress.parents.dom());
                        lemma_settled_assign(
                            *self,
                            before.parents,
                            pending(waiting).insert(current.pos),
                            neighbor,
                            current.pos,
                        );
                        lemma_pending_push(waiting, PriorityState { cost: estimate, pos: neighbor });
                        lemma_settled_weaken(
                            *self,
                            progress.parents,
                            pending(waiting).insert(current.pos).insert(neighbor),
                            pending(frontier@).insert(current.pos),
                        );
                    }
                }
                proof {
                    seen = seen + 1;
                }
            }
            proof {
                assert(self.expanded(progress.parents, current.pos)) by {
                    assert forall|to: Pos| #[trigger]
                        self.step(current.pos, to) implies progress.parents.contains_key(to) by {
                        let j = choose|j: int| 0 <= j < all.len() && all[j] == to;
                    }
                }
                lemma_settled_done(
                    *self,
                    progress.parents,
                    pending(frontier@).insert(current.pos),
                    current.pos,
                );
                lemma_settled_weaken(
                    *self,
                    progress.parents,
                    pending(frontier@).insert(current.pos).remove(current.pos),
                    pending(frontier@),
                );
            }
        }
        proof {
            if !progress.parents.contains_key(goal) {
                assert(pending(frontier@) =~= Set::<Pos>::empty());
            }
        }
        self.finish(goal, &history, Ghost(progress), Ghost(limit))
    }
}

impl GridMap {
    /// Whether the costs of the grid are affordable: whether the searches
    /// can add them up.
    pub fn can_afford(&self) -> (b: bool)
        requires
            self.wf(),
        ensures
            b == self.affordable(),
    {
        let height: usize = self.height();
        let width: usize = self.width();
        let mut highest: i32 = 0;
        let ghost mut at: Pos = (0, 0);
        let mut row: usize = 0;
        while row < height
            invariant
                self.wf(),
                height == self.lines(),
                width == self.columns(),
                row <= height,
                0 <= highest,
                highest > 0 ==> self.cell(at) == Some(MapNode::Path(highest)),
                forall|pos: Pos|
                    0 <= pos.0 < row ==> (#[trigger] self.cell(pos) matches Some(MapNode::Path(c))
                        ==> 0 <= c <= highest),
            ensures
                row == height,
            decreases height - row,
        {
            let mut col: usize = 0;
            while col < width
                invariant
                    self.wf(),
                    height == self.lines(),
                    width == self.columns(),
                    row < height,
                    col <= width,
                    0 <= highest,
                    highest > 0 ==> self.cell(at) == Some(MapNode::Path(highest)),
                    forall|pos: Pos|
                        (0 <= pos.0 < row || (pos.0 == row && 0 <= pos.1 < col)) ==> (
                            #[trigger] self.cell(pos) matches Some(MapNode::Path(c)) ==> 0 <= c
                            <= highest),
                decreases width - col,
            {
                let here: Pos = (row as i32, col as i32);
                match self.node(here) {
                    Some(MapNode::Path(cost)) => {
                        if *cost < 0 {
                            proof {
                                assert forall|limit: nat| !#[trigger] self.affordable_at(limit) by {
                                    let was = self.cell(here);
                                }
                            }
                            return false;
                        }
                        if *cost > highest {
                            highest = *cost;
                            proof {
                                at = here;
                            }
                        }
                    },
                    _ => {},
                }
                col += 1;
            }
            row += 1;
        }
        proof {
            assert(height * width <= 0x4000_0000_0000_0000 && highest * (height * width + 2)
                <= 0x2000_0000_0000_0000_0000_0000) by (nonlinear_arith)
                requires
                    0 <= height <= 0x7fff_ffff,
                    0 <= width <= 0x7fff_ffff,
                    0 <= highest <= 0x7fff_ffff,
            ;
        }
        let cells: u128 = (height as u128) * (width as u128);
        let needed: u128 = (highest as u128) * (cells + 2) + (i32::MAX as u128);
        let b = needed <= usize::MAX as u128;
        proof {
            assert(cells == self.cells()) by (nonlinear_arith)
                requires
                    cells == height * width,
                    self.cells() == self.lines() * self.columns(),
                    height == self.lines(),
                    width == self.columns(),
            ;
            assert forall|pos: Pos|
                (#[trigger] self.cell(pos) matches Some(MapNode::Path(c)) ==> 0 <= c
                    <= highest as nat) by {}
            assert(self.costs_within(highest as nat));
            if b {
                assert(self.affordable_at(highest as nat));
            } else {
                assert forall|limit: nat| !#[trigger] self.affordable_at(limit) by {
                    if self.costs_within(limit) {
                        if highest > 0 {
                            let was = self.cell(at);
                        }
                        assert(highest * (self.cells() + 2) <= limit * (self.cells() + 2))
                            by (nonlinear_arith)
                            requires
                                0 <= highest <= limit,
                                0 <= self.cells(),
                        ;
                    }
                }
            }
        }
        b
    }

    /// Whether the distance from `goal` to each cell of the grid can be
    /// worked out in `i32`.
    pub fn distance_fits(&self, goal: Pos) -> (b: bool)
        requires
            self.wf(),
        ensures
            b == self.heuristic_fits(goal),
    {
        let height: usize = self.height();
        let width: usize = self.width();
        if height == 0 || width == 0 {
            return true;
        }
        let row: i64 = goal.0 as i64;
        let col: i64 = goal.1 as i64;
        let last_row: i64 = (height - 1) as i64;
        let last_col: i64 = (width - 1) as i64;
        let up: i64 = if row < 0 {
            -row
        } else {
            row
        };
        let down: i64 = if row < last_row {
            last_row - row
        } else {
            row - last_row
        };
        let left: i64 = if col < 0 {
            -col
        } else {
            col
        };
        let right: i64 = if col < last_col {
            last_col - col
        } else {
            col - last_col
        };
        let rows: i64 = if up < down {
            down
        } else {
            up
        };
        let cols: i64 = if left < right {
            right
        } else {
            left
        };
        let b = row - last_row > i32::MIN as i64 && col - last_col > i32::MIN as i64 && rows + cols
            <= i32::MAX as i64;
        proof {
            let far_row: i32 = if up < down {
                last_row as i32
            } else {
                0
            };
            let far_col: i32 = if left < right {
                last_col as i32
            } else {
                0
            };
            assert(self.contains((far_row, far_col)));
            assert(self.contains((last_row as i32, last_col as i32)));
            assert(manhattan(goal, (far_row, far_col)) == rows + cols);
            if b {
                assert forall|pos: Pos| #[trigger] self.contains(pos) implies {
                    &&& i32::MIN < goal.0 - pos.0 <= i32::MAX
                    &&& i32::MIN < goal.1 - pos.1 <= i32::MAX
                    &&& manhattan(goal, pos) <= i32::MAX
                } by {}
            }
        }
        b
    }
}

} // verus!
