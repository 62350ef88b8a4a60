use rust_ds_algo::a_star::frontier::{Frontier, PriorityState};
use rust_ds_algo::a_star::generate::COSTS;
use rust_ds_algo::a_star::grid::{lookup, GridMap, MapNode, NeighborIterator};
use rust_ds_algo::a_star::history::{key, PathfindingResult};
use std::collections::HashMap;

fn neighbors_of(map: &GridMap, node: (i32, i32)) -> Vec<(i32, i32)> {
    let mut iter = map.neighbors(node);
    let mut found = Vec::new();
    while let Some(pos) = iter.next() {
        found.push(pos);
    }
    found
}

/// A 3 by 3 grid where the way along the top is short and dear and the way
/// round is long and cheap.
fn detour_map() -> GridMap {
    let mut map = GridMap::new(3, 3);
    let costs = [[0, 7, 1], [1, 9, 1], [1, 1, 1]];
    for row in 0..3 {
        for col in 0..3 {
            map.set_cost(row, col, costs[row][col]);
        }
    }
    map
}

fn is_step(a: (i32, i32), b: (i32, i32)) -> bool {
    (a.0 - b.0).abs() + (a.1 - b.1).abs() == 1
}

fn check_route(map: &GridMap, result: &PathfindingResult, goal: (i32, i32)) {
    assert_eq!(result.path.first(), Some(&map.agent_pos()));
    assert_eq!(result.path.last(), Some(&goal));
    for pair in result.path.windows(2) {
        assert!(is_step(pair[0], pair[1]));
        assert!(matches!(map.node(pair[1]), Some(MapNode::Path(_))));
    }
    let cost: usize = result
        .path
        .iter()
        .map(|p| match map.node(*p) {
            Some(MapNode::Path(c)) => *c as usize,
            _ => 0,
        })
        .sum();
    assert_eq!(result.cost_of_path, cost);
}

#[test]
fn new_map_is_open_ground() {
    let map = GridMap::new(4, 3);
    assert_eq!(map.width(), 4);
    assert_eq!(map.height(), 3);
    assert_eq!(map.agent_pos(), (0, 0));
    for row in 0..3 {
        for col in 0..4 {
            assert!(matches!(map.node((row, col)), Some(MapNode::Path(0))));
        }
    }
    assert!(map.node((3, 0)).is_none());
    assert!(map.node((0, 4)).is_none());
    assert!(map.node((-1, 0)).is_none());
    assert!(map.node((0, -1)).is_none());
}

#[test]
fn neighbours_come_east_north_west_south() {
    let map = GridMap::new(3, 3);
    assert_eq!(neighbors_of(&map, (1, 1)), vec![(1, 2), (0, 1), (1, 0), (2, 1)]);
    assert_eq!(neighbors_of(&map, (0, 0)), vec![(0, 1), (1, 0)]);
    assert_eq!(neighbors_of(&map, (2, 2)), vec![(1, 2), (2, 1)]);
    assert_eq!(neighbors_of(&map, (0, 2)), vec![(0, 1), (1, 2)]);
    assert_eq!(neighbors_of(&map, (5, 5)), vec![]);
    assert_eq!(neighbors_of(&map, (-1, 0)), vec![(0, 0)]);
}

#[test]
fn neighbours_leave_out_what_is_no_open_ground() {
    let mut map = GridMap::new(3, 3);
    map.draw((0, 1), "x");
    assert!(map.place_obstacle(true, 1, 1, 0));
    assert_eq!(neighbors_of(&map, (1, 1)), vec![(1, 2), (2, 1)]);
}

#[test]
fn neighbour_walk_over_a_bare_grid() {
    let grid = vec![
        vec![MapNode::Path(1), MapNode::VerticalObstacle],
        vec![MapNode::Path(2), MapNode::Path(3)],
    ];
    let mut iter = NeighborIterator::new((1, 1), &grid, (2, 2));
    assert_eq!(iter.next(), Some((1, 0)));
    assert_eq!(iter.next(), None);
    assert_eq!(iter.next(), None);
    assert!(matches!(lookup(&grid, (0, 1)), Some(MapNode::VerticalObstacle)));
    assert!(matches!(lookup(&grid, (1, 1)), Some(MapNode::Path(3))));
    assert!(lookup(&grid, (2, 0)).is_none());
}

#[test]
fn draw_marks_a_cell() {
    let mut map = GridMap::new(2, 2);
    map.draw((1, 0), "☐");
    match map.node((1, 0)) {
        Some(MapNode::Custom(mark)) => assert_eq!(mark, "☐"),
        other => panic!("{:?}", other),
    }
    assert!(matches!(map.node((0, 0)), Some(MapNode::Path(0))));
    map.draw((7, 0), "x");
    map.draw((-1, 5), "x");
    assert!(matches!(map.node((1, 1)), Some(MapNode::Path(0))));
}

#[test]
fn horizontal_obstacle_runs_east() {
    let mut map = GridMap::new(10, 4);
    assert!(map.place_obstacle(true, 3, 1, 2));
    for col in 0..10 {
        let expected = (2..5).contains(&col);
        assert_eq!(matches!(map.node((1, col)), Some(MapNode::HorizontalObstacle)), expected);
    }
    assert!(matches!(map.node((0, 2)), Some(MapNode::Path(0))));
    // on an obstacle nothing is placed
    assert!(!map.place_obstacle(false, 2, 1, 3));
    assert!(matches!(map.node((2, 3)), Some(MapNode::Path(0))));
}

#[test]
fn obstacle_near_the_border_runs_up_to_it() {
    let mut map = GridMap::new(10, 10);
    // columns 7 and 8 would be covered; as that comes to the last cell but
    // one, the last cell is covered too
    assert!(map.place_obstacle(true, 3, 0, 7));
    for col in 7..10 {
        assert!(matches!(map.node((0, col)), Some(MapNode::HorizontalObstacle)));
    }
    assert!(matches!(map.node((0, 6)), Some(MapNode::Path(0))));
    assert!(map.place_obstacle(false, 2, 6, 1));
    assert!(matches!(map.node((6, 1)), Some(MapNode::VerticalObstacle)));
    assert!(matches!(map.node((7, 1)), Some(MapNode::VerticalObstacle)));
    assert!(matches!(map.node((8, 1)), Some(MapNode::Path(0))));
    assert!(map.place_obstacle(false, 0, 3, 3));
    assert!(matches!(map.node((3, 3)), Some(MapNode::Path(0))));
}

#[test]
fn step_costs_and_distance() {
    let mut map = GridMap::new(3, 3);
    map.set_cost(1, 2, 11);
    assert_eq!(map.cost_adjacent((1, 2)), 11);
    assert_eq!(map.cost_adjacent((0, 0)), 0);
    assert_eq!(map.cost_adjacent((3, 0)), usize::MAX);
    map.draw((2, 2), "x");
    assert_eq!(map.cost_adjacent((2, 2)), usize::MAX);
    assert_eq!(map.heuristic((10, 10), (0, 0)), 20);
    assert_eq!(map.heuristic((0, 0), (10, 10)), 20);
    assert_eq!(map.heuristic((2, 7), (5, 3)), 7);
    assert_eq!(map.heuristic((4, 4), (4, 4)), 0);
}

#[test]
fn clone_copies_the_grid() {
    let mut map = GridMap::new(3, 2);
    map.set_cost(1, 1, 4);
    map.draw((0, 2), "m");
    let copy = map.clone();
    assert_eq!(copy.width(), 3);
    assert_eq!(copy.height(), 2);
    assert!(matches!(copy.node((1, 1)), Some(MapNode::Path(4))));
    match copy.node((0, 2)) {
        Some(MapNode::Custom(mark)) => assert_eq!(mark, "m"),
        other => panic!("{:?}", other),
    }
}

#[test]
fn frontier_hands_out_the_lowest_cost_first() {
    let mut frontier = Frontier::new();
    assert!(frontier.is_empty());
    assert_eq!(frontier.pop(), None);
    frontier.push(PriorityState { cost: 5, pos: (0, 0) });
    frontier.push(PriorityState { cost: 2, pos: (1, 1) });
    frontier.push(PriorityState { cost: 9, pos: (2, 2) });
    frontier.push(PriorityState { cost: 2, pos: (1, 3) });
    frontier.push(PriorityState { cost: 2, pos: (0, 7) });
    assert_eq!(frontier.len(), 5);
    // at equal cost the place further down, then further right, comes first
    assert_eq!(frontier.pop(), Some(PriorityState { cost: 2, pos: (1, 3) }));
    assert_eq!(frontier.pop(), Some(PriorityState { cost: 2, pos: (1, 1) }));
    assert_eq!(frontier.pop(), Some(PriorityState { cost: 2, pos: (0, 7) }));
    assert_eq!(frontier.pop(), Some(PriorityState { cost: 5, pos: (0, 0) }));
    assert_eq!(frontier.pop(), Some(PriorityState { cost: 9, pos: (2, 2) }));
    assert_eq!(frontier.pop(), None);
    assert!(PriorityState { cost: 1, pos: (0, 0) }.beats(&PriorityState { cost: 2, pos: (9, 9) }));
    assert!(!PriorityState { cost: 2, pos: (0, 0) }.beats(&PriorityState { cost: 2, pos: (0, 0) }));
}

#[test]
fn keys_tell_places_apart() {
    let places = [(0, 0), (0, 1), (1, 0), (-1, 0), (0, -1), (i32::MAX, i32::MIN), (i32::MIN, i32::MAX)];
    for a in places {
        for b in places {
            assert_eq!(key(a) == key(b), a == b);
        }
    }
    assert_eq!(key((i32::MIN, i32::MIN)), 0);
    assert_eq!(key((i32::MAX, i32::MAX)), u64::MAX);
    assert_eq!(key((0, 0)), 0x8000_0000_8000_0000);
}

#[test]
fn construct_path_follows_the_parents_back() {
    let mut map = GridMap::new(3, 1);
    map.set_cost(0, 0, 2);
    map.set_cost(0, 1, 3);
    map.set_cost(0, 2, 4);
    let mut history = HashMap::new();
    history.insert(key((0, 0)), (0, 0));
    history.insert(key((0, 1)), (0, 0));
    history.insert(key((0, 2)), (0, 1));
    let result = map.construct_path((0, 2), &history).unwrap();
    assert_eq!(result.path, vec![(0, 0), (0, 1), (0, 2)]);
    assert_eq!(result.cost_of_path, 9);
    assert_eq!(result.nodes_visited, 3);
    let home = map.construct_path((0, 0), &history).unwrap();
    assert_eq!(home.path, vec![(0, 0), (0, 0)]);
    assert_eq!(home.cost_of_path, 4);
    assert!(map.construct_path((0, 3), &history).is_none());
}

#[test]
fn breadth_first_takes_the_fewest_steps() {
    let map = detour_map();
    let result = map.find_path_bfs((0, 2)).unwrap();
    assert_eq!(result.path, vec![(0, 0), (0, 1), (0, 2)]);
    assert_eq!(result.cost_of_path, 8);
    assert_eq!(result.nodes_visited, 6);
    check_route(&map, &result, (0, 2));
}

#[test]
fn dijkstra_takes_the_cheapest_way() {
    let map = detour_map();
    let result = map.find_path_dijkstra((0, 2)).unwrap();
    assert_eq!(
        result.path,
        vec![(0, 0), (1, 0), (2, 0), (2, 1), (2, 2), (1, 2), (0, 2)]
    );
    assert_eq!(result.cost_of_path, 6);
    check_route(&map, &result, (0, 2));
}

#[test]
fn greedy_best_first_heads_for_the_goal() {
    let map = detour_map();
    let result = map.find_path_gbfs((0, 2)).unwrap();
    assert_eq!(result.path, vec![(0, 0), (0, 1), (0, 2)]);
    assert_eq!(result.cost_of_path, 8);
    assert_eq!(result.nodes_visited, 5);
    check_route(&map, &result, (0, 2));
}

#[test]
fn a_star_takes_the_cheapest_way() {
    let map = detour_map();
    let result = map.find_path_a_star((0, 2)).unwrap();
    assert_eq!(
        result.path,
        vec![(0, 0), (1, 0), (2, 0), (2, 1), (2, 2), (1, 2), (0, 2)]
    );
    assert_eq!(result.cost_of_path, 6);
    check_route(&map, &result, (0, 2));
}

#[test]
fn all_searches_cross_an_open_map() {
    let map = GridMap::new(20, 20);
    let goal = (10, 10);
    let results = [
        map.find_path_bfs(goal).unwrap(),
        map.find_path_dijkstra(goal).unwrap(),
        map.find_path_gbfs(goal).unwrap(),
        map.find_path_a_star(goal).unwrap(),
    ];
    for result in &results {
        check_route(&map, result, goal);
        assert_eq!(result.cost_of_path, 0);
        assert!(result.nodes_visited >= result.path.len());
        assert!(result.nodes_visited <= 400);
    }
    assert_eq!(results[0].path.len(), 21);
    assert_eq!(results[2].path.len(), 21);
}

#[test]
fn a_wall_makes_the_goal_unreachable() {
    let mut map = GridMap::new(5, 5);
    assert!(map.place_obstacle(true, 5, 2, 0));
    let goal = (4, 4);
    assert!(map.find_path_bfs(goal).is_none());
    assert!(map.find_path_dijkstra(goal).is_none());
    assert!(map.find_path_gbfs(goal).is_none());
    assert!(map.find_path_a_star(goal).is_none());
    // on this side of the wall everything is in reach
    assert!(map.find_path_bfs((1, 4)).is_some());
    // an obstacle is no goal, nor is a place off the grid
    assert!(map.find_path_bfs((2, 2)).is_none());
    assert!(map.find_path_a_star((9, 9)).is_none());
    assert!(map.find_path_dijkstra((-1, 0)).is_none());
}

#[test]
fn a_gap_in_the_wall_is_found() {
    let mut map = GridMap::new(5, 5);
    assert!(map.place_obstacle(true, 3, 2, 0));
    let goal = (4, 0);
    for result in [
        map.find_path_bfs(goal).unwrap(),
        map.find_path_dijkstra(goal).unwrap(),
        map.find_path_gbfs(goal).unwrap(),
        map.find_path_a_star(goal).unwrap(),
    ] {
        check_route(&map, &result, goal);
        assert!(result.path.contains(&(2, 3)) || result.path.contains(&(2, 4)));
        assert!(result.path.len() >= 11);
    }
    assert_eq!(map.find_path_bfs(goal).unwrap().path.len(), 11);
}

#[test]
fn the_way_to_the_agent_itself() {
    let map = detour_map();
    for result in [
        map.find_path_bfs((0, 0)).unwrap(),
        map.find_path_dijkstra((0, 0)).unwrap(),
        map.find_path_gbfs((0, 0)).unwrap(),
        map.find_path_a_star((0, 0)).unwrap(),
    ] {
        assert_eq!(result.path, vec![(0, 0), (0, 0)]);
        assert_eq!(result.cost_of_path, 0);
        assert_eq!(result.nodes_visited, 1);
    }
}

#[test]
fn search_on_a_map_without_cells() {
    let map = GridMap::new(0, 0);
    assert!(map.find_path_bfs((1, 1)).is_none());
    let home = map.find_path_dijkstra((0, 0)).unwrap();
    assert_eq!(home.path, vec![(0, 0), (0, 0)]);
    assert_eq!(home.nodes_visited, 1);
}

#[test]
fn glyphs_of_the_cells() {
    let mut map = GridMap::new(3, 2);
    map.set_cost(0, 1, 5);
    map.set_cost(0, 2, 6);
    assert!(map.place_obstacle(true, 1, 1, 0));
    assert!(map.place_obstacle(false, 1, 1, 1));
    map.draw((1, 2), "☐");
    assert_eq!(map.glyph(0, 0), "╳");
    assert_eq!(map.glyph(0, 1), "·");
    assert_eq!(map.glyph(0, 2), "☷");
    assert_eq!(map.glyph(1, 0), "━");
    assert_eq!(map.glyph(1, 1), "┃");
    assert_eq!(map.glyph(1, 2), "☐");
}

#[test]
fn costs_are_affordable_unless_negative() {
    let mut map = GridMap::new(20, 20);
    assert!(map.can_afford());
    map.set_cost(3, 4, 11);
    map.set_cost(0, 0, i32::MAX);
    assert!(map.can_afford());
    map.set_cost(19, 19, -1);
    assert!(!map.can_afford());
    map.draw((19, 19), "x");
    assert!(map.can_afford());
    assert!(GridMap::new(0, 0).can_afford());
}

#[test]
fn distance_fits_unless_the_goal_is_too_far_out() {
    let map = GridMap::new(4, 4);
    assert!(map.distance_fits((10, 10)));
    assert!(map.distance_fits((-5, 2)));
    // the cell furthest from a goal in column 0 is three columns away
    assert!(map.distance_fits((i32::MAX - 3, 0)));
    assert!(!map.distance_fits((i32::MAX - 2, 0)));
    assert!(!map.distance_fits((i32::MAX, i32::MAX)));
    assert!(!map.distance_fits((i32::MIN, 0)));
    assert!(map.distance_fits((i32::MIN + 7, 0)));
    assert!(!map.distance_fits((i32::MIN + 6, 0)));
    assert!(GridMap::new(0, 3).distance_fits((i32::MIN, i32::MIN)));
}

#[test]
fn breadth_first_is_never_longer_than_the_others() {
    let mut map = GridMap::new(8, 8);
    for (row, col, cost) in [(0, 1, 9), (1, 1, 9), (2, 1, 9), (3, 3, 4), (5, 5, 7), (6, 2, 3)] {
        map.set_cost(row, col, cost);
    }
    assert!(map.place_obstacle(false, 4, 1, 4));
    assert!(map.place_obstacle(true, 3, 6, 5));
    for goal in [(7, 7), (0, 7), (7, 0), (3, 5), (5, 6)] {
        let bfs = map.find_path_bfs(goal).unwrap();
        let dijkstra = map.find_path_dijkstra(goal).unwrap();
        let gbfs = map.find_path_gbfs(goal).unwrap();
        let a_star = map.find_path_a_star(goal).unwrap();
        for other in [&dijkstra, &gbfs, &a_star] {
            check_route(&map, other, goal);
            assert!(bfs.path.len() <= other.path.len());
            assert!(dijkstra.cost_of_path <= other.cost_of_path);
        }
        assert!(dijkstra.cost_of_path <= bfs.cost_of_path);
    }
}

#[test]
fn scattered_costs_are_below_the_bound_and_differ() {
    let mut rng = rand::thread_rng();
    let mut map = GridMap::new(20, 20);
    assert!(map.place_obstacle(true, 4, 3, 3));
    map.draw((7, 7), "x");
    map.scatter_costs(&mut rng);
    let mut seen = Vec::new();
    for row in 0..20 {
        for col in 0..20 {
            match map.node((row, col)) {
                Some(MapNode::Path(cost)) => {
                    assert!(0 <= *cost && (*cost as usize) < COSTS);
                    if !seen.contains(cost) {
                        seen.push(*cost);
                    }
                }
                other => panic!("{:?}", other),
            }
        }
    }
    assert!(seen.len() > 1);
    assert!(map.can_afford());
}

#[test]
fn a_drawn_obstacle_is_a_short_run_in_one_line() {
    let mut rng = rand::thread_rng();
    for round in 0..50 {
        let is_horizontal = round % 2 == 0;
        let mut map = GridMap::new(20, 20);
        assert!(map.try_obstacle(&mut rng, is_horizontal));
        let mut covered = Vec::new();
        for row in 0..20 {
            for col in 0..20 {
                match map.node((row, col)) {
                    Some(MapNode::Path(0)) => (),
                    Some(MapNode::HorizontalObstacle) => {
                        assert!(is_horizontal);
                        covered.push((row, col));
                    }
                    Some(MapNode::VerticalObstacle) => {
                        assert!(!is_horizontal);
                        covered.push((row, col));
                    }
                    other => panic!("{:?}", other),
                }
            }
        }
        // a length of two to five cells, cut off at the border
        assert!(1 <= covered.len() && covered.len() <= 5);
        let first = covered[0];
        for (i, cell) in covered.iter().enumerate() {
            let expected = if is_horizontal {
                (first.0, first.1 + i as i32)
            } else {
                (first.0 + i as i32, first.1)
            };
            assert_eq!(*cell, expected);
        }
        let last = covered[covered.len() - 1];
        let at_border = if is_horizontal { last.1 == 19 } else { last.0 == 19 };
        assert!(covered.len() >= 2 || at_border);
    }
}

#[test]
fn nothing_is_drawn_onto_an_obstacle() {
    let mut rng = rand::thread_rng();
    let mut map = GridMap::new(3, 3);
    for row in 0..3 {
        assert!(map.place_obstacle(true, 3, row, 0));
    }
    for _ in 0..20 {
        assert!(!map.try_obstacle(&mut rng, false));
    }
    for row in 0..3 {
        for col in 0..3 {
            assert!(matches!(map.node((row, col)), Some(MapNode::HorizontalObstacle)));
        }
    }
}

#[test]
fn picture_of_a_small_map() {
    let mut map = GridMap::new(3, 2);
    map.set_cost(0, 1, 5);
    map.set_cost(0, 2, 6);
    assert!(map.place_obstacle(true, 1, 1, 0));
    assert!(map.place_obstacle(false, 1, 1, 1));
    map.draw((1, 2), "☐");
    let expected = "    0  1  2 \n   ┈ ┈ ┈\n0 | ╳  ·  ☷\n1 | ━  ┃  ☐";
    assert_eq!(map.picture(), expected);
}

#[test]
fn picture_makes_room_for_long_numbers() {
    let map = GridMap::new(11, 1);
    let picture = map.picture();
    let lines: Vec<&str> = picture.split('\n').collect();
    assert_eq!(lines.len(), 3);
    assert_eq!(lines[0], "    0   1   2   3   4   5   6   7   8   9   10 ");
    assert_eq!(lines[1], "   ┈┈  ┈┈  ┈┈  ┈┈  ┈┈  ┈┈  ┈┈  ┈┈  ┈┈  ┈┈  ┈┈");
    assert_eq!(lines[2], "0 | ╳   ·   ·   ·   ·   ·   ·   ·   ·   ·   ·");
}

#[test]
fn picture_of_a_map_without_cells() {
    assert_eq!(GridMap::new(0, 0).picture(), "    \n   \n");
}
