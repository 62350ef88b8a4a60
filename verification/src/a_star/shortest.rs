use vstd::prelude::*;
use crate::a_star::grid::{GridMap, Pos};
use crate::a_star::history::follows;

verus! {

impl GridMap {
    /// Whether no walk from the agent to `pos` has fewer than `steps`
    /// steps.
    pub open spec fn nearest(self, pos: Pos, steps: nat) -> bool {
        forall|walk: Seq<Pos>| #[trigger] self.is_walk(walk, pos) ==> walk.len() >= steps + 1
    }

    /// Whether every step from `pos` leads to a place that was reached, in
    /// at most one step more than `pos`.
    pub open spec fn looked_at(self, parents: Map<Pos, Pos>, depth: Map<Pos, nat>, pos: Pos) -> bool {
        forall|to: Pos| #[trigger]
            self.step(pos, to) ==> parents.contains_key(to) && depth[to] <= depth[pos] + 1
    }

    /// What breadth first search holds to be true of the number of steps at
    /// which it reached each place: the number is one more than that of the
    /// parent, no walk gets there in fewer steps, and it is at most one
    /// above `floor`; the places in the queue were reached in `floor` steps
    /// or one more, the later the more; and every place that neither waits
    /// in the queue nor is `current` has been looked at.
    #[verifier::opaque]
    pub open spec fn layered(
        self,
        parents: Map<Pos, Pos>,
        depth: Map<Pos, nat>,
        queue: Seq<Pos>,
        floor: nat,
        current: Option<Pos>,
    ) -> bool {
        &&& parents.contains_key(self.agent())
        &&& depth[self.agent()] == 0
        &&& forall|pos: Pos| #[trigger]
            parents.contains_key(pos) ==> {
                &&& pos != self.agent() ==> parents.contains_key(parents[pos]) && depth[pos]
                    == depth[parents[pos]] + 1
                &&& self.nearest(pos, depth[pos])
                &&& depth[pos] <= floor + 1
                &&& !queue.contains(pos) && current != Some(pos) ==> self.looked_at(
                    parents,
                    depth,
                    pos,
                )
            }
        &&& forall|i: int|
            0 <= i < queue.len() ==> parents.contains_key(#[trigger] queue[i]) && floor
                <= depth[queue[i]]
        &&& forall|i: int, j: int|
            0 <= i < j < queue.len() ==> depth[#[trigger] queue[i]] >= depth[#[trigger] queue[j]]
        &&& current matches Some(pos) ==> parents.contains_key(pos) && depth[pos] == floor
    }
}

/// Breadth first search starts in layers.
pub proof fn lemma_layered_start(map: GridMap)
    ensures
        map.layered(
            Map::<Pos, Pos>::empty().insert(map.agent(), map.agent()),
            Map::<Pos, nat>::empty().insert(map.agent(), 0nat),
            seq![map.agent()],
            0,
            None,
        ),
{
    reveal(GridMap::layered);
    let queue = seq![map.agent()];
    assert(queue[0] == map.agent());
    assert(queue.contains(map.agent()));
}

/// Where the places reached in fewer than `floor` steps have been looked
/// at, a walk either ends at a place reached in no more steps than the walk
/// has, or has more than `floor` steps.
pub proof fn lemma_walk_through_layers(
    map: GridMap,
    parents: Map<Pos, Pos>,
    depth: Map<Pos, nat>,
    floor: nat,
    walk: Seq<Pos>,
    end: Pos,
)
    requires
        map.is_walk(walk, end),
        parents.contains_key(map.agent()),
        depth[map.agent()] == 0,
        forall|pos: Pos| #[trigger]
            parents.contains_key(pos) && depth[pos] < floor ==> map.looked_at(parents, depth, pos),
    ensures
        (parents.contains_key(end) && depth[end] <= walk.len() - 1) || walk.len() - 1 >= floor + 1,
    decreases walk.len(),
{
    if walk.len() > 1 {
        let before = walk.drop_last();
        let via = before.last();
        assert forall|i: int| 0 < i < before.len() implies #[trigger] map.step(
            before[i - 1],
            before[i],
        ) by {
            assert(map.step(walk[i - 1], walk[i]));
        }
        lemma_walk_through_layers(map, parents, depth, floor, before, via);
        assert(map.step(walk[walk.len() - 2], walk[walk.len() - 1]));
        if parents.contains_key(via) && depth[via] < floor {
            assert(map.looked_at(parents, depth, via));
        }
    }
}

/// Taking the oldest place from the queue keeps the layers; the place is
/// the current one then, and the floor is the number of steps at which it
/// was reached.
pub proof fn lemma_layered_pop(
    map: GridMap,
    parents: Map<Pos, Pos>,
    depth: Map<Pos, nat>,
    queue: Seq<Pos>,
    floor: nat,
)
    requires
        map.layered(parents, depth, queue, floor, None),
        queue.len() > 0,
    ensures
        parents.contains_key(queue.last()),
        map.layered(parents, depth, queue.drop_last(), depth[queue.last()], Some(queue.last())),
{
    reveal(GridMap::layered);
    let current = queue.last();
    let rest = queue.drop_last();
    assert(queue[queue.len() - 1] == current);
    assert forall|pos: Pos| #[trigger] parents.contains_key(pos) implies {
        &&& depth[pos] <= depth[current] + 1
        &&& !rest.contains(pos) && Some(current) != Some(pos) ==> map.looked_at(parents, depth, pos)
    } by {
        if !rest.contains(pos) && current != pos {
            if queue.contains(pos) {
                let i = choose|i: int| 0 <= i < queue.len() && queue[i] == pos;
                assert(rest[i] == pos);
            }
        }
    }
    assert forall|i: int| 0 <= i < rest.len() implies parents.contains_key(#[trigger] rest[i])
        && depth[current] <= depth[rest[i]] by {
        assert(rest[i] == queue[i]);
    }
    assert forall|i: int, j: int| 0 <= i < j < rest.len() implies depth[#[trigger] rest[i]]
        >= depth[#[trigger] rest[j]] by {
        assert(rest[i] == queue[i] && rest[j] == queue[j]);
    }
}

/// Reaching a place for the first time, from the current place, and
/// putting it into the queue keeps the layers: it is reached in one step
/// more than the current place, and in no fewer.
pub proof fn lemma_layered_discover(
    map: GridMap,
    parents: Map<Pos, Pos>,
    depth: Map<Pos, nat>,
    queue: Seq<Pos>,
    floor: nat,
    current: Pos,
    pos: Pos,
)
    requires
        map.layered(parents, depth, queue, floor, Some(current)),
        map.step(current, pos),
        !parents.contains_key(pos),
    ensures
        map.layered(
            parents.insert(pos, current),
            depth.insert(pos, floor + 1),
            seq![pos] + queue,
            floor,
            Some(current),
        ),
{
    reveal(GridMap::layered);
    let parents_after = parents.insert(pos, current);
    let depth_after = depth.insert(pos, floor + 1);
    let queue_after = seq![pos] + queue;
    assert forall|at: Pos| #[trigger]
        parents.contains_key(at) && depth[at] < floor implies map.looked_at(parents, depth, at) by {
        if queue.contains(at) {
            let i = choose|i: int| 0 <= i < queue.len() && queue[i] == at;
        }
    }
    assert(map.nearest(pos, floor + 1)) by {
        assert forall|walk: Seq<Pos>| #[trigger] map.is_walk(walk, pos) implies walk.len() >= floor
            + 2 by {
            lemma_walk_through_layers(map, parents, depth, floor, walk, pos);
        }
    }
    assert(queue_after[0] == pos);
    assert forall|at: Pos| #[trigger] parents_after.contains_key(at) implies {
        &&& at != map.agent() ==> parents_after.contains_key(parents_after[at]) && depth_after[at]
            == depth_after[parents_after[at]] + 1
        &&& map.nearest(at, depth_after[at])
        &&& depth_after[at] <= floor + 1
        &&& !queue_after.contains(at) && Some(current) != Some(at) ==> map.looked_at(
            parents_after,
            depth_after,
            at,
        )
    } by {
        if at != pos {
            assert(parents.contains_key(at));
            if at != map.agent() {
                assert(parents.contains_key(parents[at]));
            }
            if !queue_after.contains(at) && current != at {
                if queue.contains(at) {
                    let i = choose|i: int| 0 <= i < queue.len() && queue[i] == at;
                    assert(queue_after[i + 1] == at);
                }
                assert(map.looked_at(parents, depth, at));
            }
        }
    }
    assert forall|i: int| 0 <= i < queue_after.len() implies parents_after.contains_key(
        #[trigger] queue_after[i],
    ) && floor <= depth_after[queue_after[i]] by {
        if i > 0 {
            assert(queue_after[i] == queue[i - 1]);
        }
    }
    assert forall|i: int, j: int| 0 <= i < j < queue_after.len() implies depth_after[
        #[trigger] queue_after[i]
    ] >= depth_after[#[trigger] queue_after[j]] by {
        assert(queue_after[j] == queue[j - 1]);
        if i > 0 {
            assert(queue_after[i] == queue[i - 1]);
        }
    }
}

/// What the layers say of the agent: it was reached, in no step.
pub proof fn lemma_layered_agent(
    map: GridMap,
    parents: Map<Pos, Pos>,
    depth: Map<Pos, nat>,
    queue: Seq<Pos>,
    floor: nat,
    current: Option<Pos>,
)
    requires
        map.layered(parents, depth, queue, floor, current),
    ensures
        parents.contains_key(map.agent()),
        depth[map.agent()] == 0,
{
    reveal(GridMap::layered);
}

/// What the layers say of a place that was reached.
pub proof fn lemma_layered_at(
    map: GridMap,
    parents: Map<Pos, Pos>,
    depth: Map<Pos, nat>,
    queue: Seq<Pos>,
    floor: nat,
    current: Option<Pos>,
    pos: Pos,
)
    requires
        map.layered(parents, depth, queue, floor, current),
        parents.contains_key(pos),
    ensures
        depth[map.agent()] == 0,
        pos != map.agent() ==> depth[pos] == depth[parents[pos]] + 1,
        map.nearest(pos, depth[pos]),
        depth[pos] <= floor + 1,
        current matches Some(at) ==> depth[at] == floor,
{
    reveal(GridMap::layered);
}

/// When the current place has been looked at, no place is current.
pub proof fn lemma_layered_done(
    map: GridMap,
    parents: Map<Pos, Pos>,
    depth: Map<Pos, nat>,
    queue: Seq<Pos>,
    floor: nat,
    current: Pos,
)
    requires
        map.layered(parents, depth, queue, floor, Some(current)),
        map.looked_at(parents, depth, current),
    ensures
        map.layered(parents, depth, queue, floor, None),
{
    reveal(GridMap::layered);
}

/// A path that follows the parents from the agent on, and does not come
/// back to the agent, has as many steps as its end was reached in.
pub proof fn lemma_route_steps(
    map: GridMap,
    parents: Map<Pos, Pos>,
    depth: Map<Pos, nat>,
    queue: Seq<Pos>,
    floor: nat,
    current: Option<Pos>,
    path: Seq<Pos>,
    n: int,
)
    requires
        map.layered(parents, depth, queue, floor, current),
        path.len() >= 1,
        path.first() == map.agent(),
        forall|i: int| 0 < i < path.len() ==> #[trigger] follows(parents, path, i),
        forall|i: int| 0 < i < path.len() ==> (#[trigger] path[i]) != map.agent(),
        0 <= n < path.len(),
    ensures
        depth[path[n]] == n,
    decreases n,
{
    if n == 0 {
        lemma_layered_agent(map, parents, depth, queue, floor, current);
    } else {
        lemma_route_steps(map, parents, depth, queue, floor, current, path, n - 1);
        assert(follows(parents, path, n));
        lemma_layered_at(map, parents, depth, queue, floor, current, path[n]);
    }
}

} // verus!
