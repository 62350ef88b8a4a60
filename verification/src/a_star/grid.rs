use vstd::prelude::*;

verus! {

/// A place on the grid: row first, then column.
pub type Pos = (i32, i32);

/// What a cell of the grid holds.
#[derive(Debug)]
pub enum MapNode {
    VerticalObstacle,
    HorizontalObstacle,
    /// Open ground, with what it costs to step on it.
    Path(i32),
    /// A mark drawn over the cell.
    Custom(String),
}

impl MapNode {
    /// Whether two cells hold the same: the same kind, the same cost, the
    /// same text of a mark.
    pub open spec fn same_as(self, other: MapNode) -> bool {
        match (self, other) {
            (MapNode::VerticalObstacle, MapNode::VerticalObstacle) => true,
            (MapNode::HorizontalObstacle, MapNode::HorizontalObstacle) => true,
            (MapNode::Path(a), MapNode::Path(b)) => a == b,
            (MapNode::Custom(a), MapNode::Custom(b)) => a@ == b@,
            _ => false,
        }
    }
}

impl Clone for MapNode {
    fn clone(&self) -> (copy: Self)
        ensures
            copy.same_as(*self),
    {
        match self {
            MapNode::VerticalObstacle => MapNode::VerticalObstacle,
            MapNode::HorizontalObstacle => MapNode::HorizontalObstacle,
            MapNode::Path(cost) => MapNode::Path(*cost),
            MapNode::Custom(mark) => MapNode::Custom(mark.clone()),
        }
    }
}

/// What `grid` holds at `pos`, if `pos` lies in it.
pub open spec fn node_at(grid: Seq<Vec<MapNode>>, pos: Pos) -> Option<MapNode> {
    if 0 <= pos.0 < grid.len() && 0 <= pos.1 < grid[pos.0 as int]@.len() {
        Some(grid[pos.0 as int]@[pos.1 as int])
    } else {
        None
    }
}

/// Whether `pos` lies in `grid` and is open ground.
pub open spec fn is_path(grid: Seq<Vec<MapNode>>, pos: Pos) -> bool {
    node_at(grid, pos) matches Some(MapNode::Path(_))
}

/// The cell next to `mid` in direction `d`: 0 is east, 1 north, 2 west and
/// 3 south.
pub open spec fn candidate(mid: Pos, d: int) -> Pos {
    if d == 0 {
        (mid.0, (mid.1 + 1) as i32)
    } else if d == 1 {
        ((mid.0 - 1) as i32, mid.1)
    } else if d == 2 {
        (mid.0, (mid.1 - 1) as i32)
    } else {
        ((mid.0 + 1) as i32, mid.1)
    }
}

/// Whether the step from `mid` in direction `d` stays on the side of the
/// border that the direction leads to, in a grid of `size.0` rows and
/// `size.1` columns.
pub open spec fn within(size: (usize, usize), mid: Pos, d: int) -> bool {
    if d == 0 {
        mid.1 + 1 < size.1
    } else if d == 1 {
        mid.0 - 1 >= 0
    } else if d == 2 {
        mid.1 - 1 >= 0
    } else {
        mid.0 + 1 < size.0
    }
}

/// Whether the cell next to `mid` in direction `d` is a neighbour to walk
/// to.
pub open spec fn yields(grid: Seq<Vec<MapNode>>, size: (usize, usize), mid: Pos, d: int) -> bool {
    within(size, mid, d) && is_path(grid, candidate(mid, d))
}

/// The neighbours of `mid` to walk to, in the directions from `d` on.
pub open spec fn neighbors_from(
    grid: Seq<Vec<MapNode>>,
    size: (usize, usize),
    mid: Pos,
    d: int,
) -> Seq<Pos>
    decreases 4 - d,
{
    if d < 0 || d >= 4 {
        Seq::empty()
    } else if yields(grid, size, mid, d) {
        seq![candidate(mid, d)] + neighbors_from(grid, size, mid, d + 1)
    } else {
        neighbors_from(grid, size, mid, d + 1)
    }
}

/// The cell of `grid` at `pos`, if `pos` lies in it.
pub fn lookup(grid: &Vec<Vec<MapNode>>, pos: Pos) -> (node: Option<&MapNode>)
    ensures
        node.is_some() == node_at(grid@, pos).is_some(),
        node.is_some() ==> *node.unwrap() == node_at(grid@, pos).unwrap(),
{
    if pos.0 < 0 || pos.1 < 0 {
        return None;
    }
    let row: usize = pos.0 as usize;
    let col: usize = pos.1 as usize;
    if row < grid.len() {
        if col < grid[row].len() {
            Some(&grid[row][col])
        } else {
            None
        }
    } else {
        None
    }
}

/// Walks round a cell and yields the neighbours that are open ground: east,
/// north, west, south.
pub struct NeighborIterator<'a> {
    mid: Pos,
    visited: u8,
    grid: &'a Vec<Vec<MapNode>>,
    size: (usize, usize),
}

impl<'a> NeighborIterator<'a> {
    /// The cell in the middle.
    pub closed spec fn mid(self) -> Pos {
        self.mid
    }

    /// Rows and columns of the grid.
    pub closed spec fn size(self) -> (usize, usize) {
        self.size
    }

    /// The rows of the grid.
    pub closed spec fn rows(self) -> Seq<Vec<MapNode>> {
        self.grid@
    }

    /// How many directions have been looked at.
    pub closed spec fn visited(self) -> int {
        self.visited as int
    }

    /// The neighbours still to come.
    pub open spec fn remaining(self) -> Seq<Pos> {
        neighbors_from(self.rows(), self.size(), self.mid(), self.visited())
    }

    /// The cell in the middle has a cell on each side that an `i32` can
    /// name, and so can the size of the grid be named.
    pub open spec fn wf(self) -> bool {
        &&& i32::MIN < self.mid().0 < i32::MAX
        &&& i32::MIN < self.mid().1 < i32::MAX
        &&& self.size().0 <= i32::MAX
        &&& self.size().1 <= i32::MAX
        &&& 0 <= self.visited() <= 4
    }

    pub fn new(mid: Pos, grid: &'a Vec<Vec<MapNode>>, size: (usize, usize)) -> (iter: Self)
        ensures
            iter.mid() == mid,
            iter.rows() == grid@,
            iter.size() == size,
            iter.visited() == 0,
    {
        NeighborIterator { mid, visited: 0, grid, size }
    }

    /// The next neighbour, if one is left.
    pub fn next(&mut self) -> (item: Option<Pos>)
        requires
            old(self).wf(),
        ensures
            final(self).wf(),
            final(self).mid() == old(self).mid(),
            final(self).rows() == old(self).rows(),
            final(self).size() == old(self).size(),
            old(self).remaining().len() == 0 ==> item.is_none() && final(self).remaining()
                == old(self).remaining(),
            old(self).remaining().len() > 0 ==> item == Some(old(self).remaining().first())
                && final(self).remaining() == old(self).remaining().drop_first(),
    {
        let east: Pos = (self.mid.0, self.mid.1 + 1);
        let north: Pos = (self.mid.0 - 1, self.mid.1);
        let west: Pos = (self.mid.0, self.mid.1 - 1);
        let south: Pos = (self.mid.0 + 1, self.mid.1);

        while self.visited < 4
            invariant
                self.wf(),
                self.mid == old(self).mid,
                self.grid == old(self).grid,
                self.size == old(self).size,
                east == candidate(self.mid, 0),
                north == candidate(self.mid, 1),
                west == candidate(self.mid, 2),
                south == candidate(self.mid, 3),
                self.remaining() == old(self).remaining(),
            decreases 4 - self.visited,
        {
            let current: Pos;
            if self.visited == 0 {
                if east.1 >= self.size.1 as i32 {
                    self.visited += 1;
                    continue ;
                } else {
                    current = east;
                }
            } else if self.visited == 1 {
                if north.0 < 0 {
                    self.visited += 1;
                    continue ;
                } else {
                    current = north;
                }
            } else if self.visited == 2 {
                if west.1 < 0 {
                    self.visited += 1;
                    continue ;
                } else {
                    current = west;
                }
            } else {
                if south.0 >= self.size.0 as i32 {
                    self.visited += 1;
                    continue ;
                } else {
                    current = south;
                }
            }
            match lookup(self.grid, current) {
                Some(MapNode::Path(_)) => {
                    self.visited += 1;
                    proof {
                        assert(old(self).remaining().drop_first() =~= self.remaining());
                    }
                    return Some(current);
                },
                _ => {
                    self.visited += 1;
                },
            }
        }
        None
    }
}

/// The number of steps between `a` and `b` where only the four directions
/// are walked.
pub open spec fn manhattan(a: Pos, b: Pos) -> int {
    (if a.0 >= b.0 {
        a.0 - b.0
    } else {
        b.0 - a.0
    }) + (if a.1 >= b.1 {
        a.1 - b.1
    } else {
        b.1 - a.1
    })
}

/// The column up to which an obstacle of `length` cells that starts at
/// `start` reaches, in a line of `extent` cells: the end of the line where
/// it would come within one cell of it.
pub open spec fn obstacle_end(start: usize, length: usize, extent: usize) -> int {
    if start + length > extent - 1 {
        extent as int
    } else {
        start + length
    }
}

/// A grid of cells with an agent on it.
#[derive(Debug)]
pub struct GridMap {
    width: usize,
    height: usize,
    grid: Vec<Vec<MapNode>>,
    agent_pos: Pos,
}

impl Clone for GridMap {
    fn clone(&self) -> (copy: Self)
        ensures
            copy.lines() == self.lines(),
            copy.columns() == self.columns(),
            copy.agent() == self.agent(),
            copy.rows().len() == self.rows().len(),
            forall|r: int|
                0 <= r < self.rows().len() ==> (#[trigger] copy.rows()[r])@.len()
                    == self.rows()[r]@.len(),
            forall|r: int, c: int|
                0 <= r < self.rows().len() && 0 <= c < self.rows()[r]@.len() ==> (
                #[trigger] copy.rows()[r]@[c]).same_as(self.rows()[r]@[c]),
    {
        let mut grid: Vec<Vec<MapNode>> = Vec::new();
        let mut r: usize = 0;
        while r < self.grid.len()
            invariant
                r <= self.grid@.len(),
                grid@.len() == r,
                forall|i: int| 0 <= i < r ==> (#[trigger] grid@[i])@.len() == self.grid@[i]@.len(),
                forall|i: int, c: int|
                    0 <= i < r && 0 <= c < self.grid@[i]@.len() ==> (#[trigger] grid@[i]@[c]).same_as(
                        self.grid@[i]@[c],
                    ),
            decreases self.grid@.len() - r,
        {
            let mut row: Vec<MapNode> = Vec::new();
            let mut c: usize = 0;
            while c < self.grid[r].len()
                invariant
                    r < self.grid@.len(),
                    c <= self.grid@[r as int]@.len(),
                    row@.len() == c,
                    forall|j: int|
                        0 <= j < c ==> (#[trigger] row@[j]).same_as(self.grid@[r as int]@[j]),
                decreases self.grid@[r as int]@.len() - c,
            {
                row.push(self.grid[r][c].clone());
                c += 1;
            }
            grid.push(row);
            r += 1;
        }
        GridMap { width: self.width, height: self.height, grid, agent_pos: self.agent_pos }
    }
}

impl GridMap {
    /// The rows of the grid, top to bottom.
    pub closed spec fn rows(self) -> Seq<Vec<MapNode>> {
        self.grid@
    }

    /// The number of columns.
    pub closed spec fn columns(self) -> nat {
        self.width as nat
    }

    /// The number of rows.
    pub closed spec fn lines(self) -> nat {
        self.height as nat
    }

    /// Where the agent stands.
    pub closed spec fn agent(self) -> Pos {
        self.agent_pos
    }

    /// Rows and columns, as the neighbour walk takes them.
    pub closed spec fn size(self) -> (usize, usize) {
        (self.height, self.width)
    }

    /// The grid has `lines()` rows of `columns()` cells each, an `i32` can
    /// name every row and column, and the agent stands where there is a
    /// place on each side of it.
    pub open spec fn wf(self) -> bool {
        &&& self.rows().len() == self.lines()
        &&& forall|r: int| 0 <= r < self.lines() ==> (#[trigger] self.rows()[r])@.len() == self.columns()
        &&& self.lines() <= i32::MAX
        &&& self.columns() <= i32::MAX
        &&& self.size() == (self.lines() as usize, self.columns() as usize)
        &&& i32::MIN < self.agent().0 < i32::MAX
        &&& i32::MIN < self.agent().1 < i32::MAX
    }

    /// Whether `pos` lies on the grid.
    pub open spec fn contains(self, pos: Pos) -> bool {
        0 <= pos.0 < self.lines() && 0 <= pos.1 < self.columns()
    }

    /// What the grid holds at `pos`, if `pos` lies on it.
    pub open spec fn cell(self, pos: Pos) -> Option<MapNode> {
        node_at(self.rows(), pos)
    }

    /// Whether `pos` is open ground.
    pub open spec fn walkable(self, pos: Pos) -> bool {
        is_path(self.rows(), pos)
    }

    /// The neighbours of `pos` to walk to: east, north, west, south, as far
    /// as they are open ground.
    pub open spec fn walkable_neighbors(self, pos: Pos) -> Seq<Pos> {
        neighbors_from(self.rows(), self.size(), pos, 0)
    }

    /// What it costs to step on `pos`: the cost of open ground, and more
    /// than can be paid for anything else.
    pub open spec fn step_cost(self, pos: Pos) -> int {
        match self.cell(pos) {
            Some(MapNode::Path(c)) => c as int,
            _ => usize::MAX as int,
        }
    }

    /// A grid of open ground that costs nothing, with the agent in the
    /// upper left corner.
    pub fn new(width: usize, height: usize) -> (map: Self)
        requires
            width <= i32::MAX,
            height <= i32::MAX,
        ensures
            map.wf(),
            map.columns() == width,
            map.lines() == height,
            map.agent() == (0i32, 0i32),
            forall|pos: Pos| map.contains(pos) ==> #[trigger] map.cell(pos) == Some(MapNode::Path(0)),
    {
        let mut grid: Vec<Vec<MapNode>> = Vec::new();
        while grid.len() < height
            invariant
                grid@.len() <= height,
                forall|r: int| 0 <= r < grid@.len() ==> (#[trigger] grid@[r])@.len() == width,
                forall|r: int, c: int|
                    0 <= r < grid@.len() && 0 <= c < width ==> (#[trigger] grid@[r]@[c])
                        == MapNode::Path(0),
            decreases height - grid@.len(),
        {
            let mut row: Vec<MapNode> = Vec::new();
            while row.len() < width
                invariant
                    row@.len() <= width,
                    forall|c: int| 0 <= c < row@.len() ==> (#[trigger] row@[c]) == MapNode::Path(0),
                decreases width - row@.len(),
            {
                row.push(MapNode::Path(0));
            }
            grid.push(row);
        }
        GridMap { width, height, grid, agent_pos: (0, 0) }
    }

    pub fn width(&self) -> (width: usize)
        ensures
            width == self.columns(),
    {
        self.width
    }

    pub fn height(&self) -> (height: usize)
        ensures
            height == self.lines(),
    {
        self.height
    }

    pub fn agent_pos(&self) -> (pos: Pos)
        ensures
            pos == self.agent(),
    {
        self.agent_pos
    }

    /// The cell at `pos`, if `pos` lies on the grid.
    pub fn node(&self, pos: Pos) -> (node: Option<&MapNode>)
        ensures
            node.is_some() == self.cell(pos).is_some(),
            node.is_some() ==> *node.unwrap() == self.cell(pos).unwrap(),
    {
        lookup(&self.grid, pos)
    }

    /// Makes the cell in row `row` and column `col` open ground that costs
    /// `cost`.
    pub fn set_cost(&mut self, row: usize, col: usize, cost: i32)
        requires
            old(self).wf(),
            row < old(self).lines(),
            col < old(self).columns(),
        ensures
            final(self).wf(),
            final(self).lines() == old(self).lines(),
            final(self).columns() == old(self).columns(),
            final(self).agent() == old(self).agent(),
            final(self).cell((row as i32, col as i32)) == Some(MapNode::Path(cost)),
            forall|pos: Pos|
                pos != (row as i32, col as i32) ==> #[trigger] final(self).cell(pos) == old(
                    self,
                ).cell(pos),
    {
        self.grid[row][col] = MapNode::Path(cost);
    }

    /// Lays an obstacle of `length` cells from the cell in row `row` and
    /// column `col`, to the east if `is_horizontal` and to the south if
    /// not, provided that this cell is open ground; says whether it did.
    /// The obstacle ends at the border, and it takes the last cell before
    /// the border along where it comes to it.
    pub fn place_obstacle(&mut self, is_horizontal: bool, length: usize, row: usize, col: usize) -> (placed: bool)
        requires
            old(self).wf(),
            row < old(self).lines(),
            col < old(self).columns(),
        ensures
            final(self).wf(),
            final(self).lines() == old(self).lines(),
            final(self).columns() == old(self).columns(),
            final(self).agent() == old(self).agent(),
            placed == old(self).walkable((row as i32, col as i32)),
            forall|pos: Pos| #[trigger]
                final(self).cell(pos) == if placed && old(self).covered(
                    is_horizontal,
                    length,
                    row,
                    col,
                    pos,
                ) {
                    Some(
                        if is_horizontal {
                            MapNode::HorizontalObstacle
                        } else {
                            MapNode::VerticalObstacle
                        },
                    )
                } else {
                    old(self).cell(pos)
                },
    {
        match self.grid[row][col] {
            MapNode::Path(_) => {},
            _ => {
                return false;
            },
        }
        if is_horizontal {
            let end: usize = if length > self.width - 1 - col {
                self.width
            } else {
                col + length
            };
            let mut l: usize = col;
            while l < end
                invariant
                    self.wf(),
                    self.height == old(self).height,
                    self.width == old(self).width,
                    self.agent_pos == old(self).agent_pos,
                    row < self.height,
                    col <= l,
                    l <= end || end < col,
                    end <= self.width,
                    end == obstacle_end(col, length, self.width),
                    forall|pos: Pos| #[trigger]
                        self.cell(pos) == if pos.0 == row && col <= pos.1 < l {
                            Some(MapNode::HorizontalObstacle)
                        } else {
                            old(self).cell(pos)
                        },
                decreases end - l,
            {
                let ghost before = *self;
                self.grid[row][l] = MapNode::HorizontalObstacle;
                l += 1;
                proof {
                    assert forall|pos: Pos| #[trigger]
                        self.cell(pos) == if pos.0 == row && col <= pos.1 < l {
                            Some(MapNode::HorizontalObstacle)
                        } else {
                            old(self).cell(pos)
                        } by {
                        let was = before.cell(pos);
                    }
                }
            }
        } else {
            let end: usize = if length > self.height - 1 - row {
                self.height
            } else {
                row + length
            };
            let mut l: usize = row;
            while l < end
                invariant
                    self.wf(),
                    self.height == old(self).height,
                    self.width == old(self).width,
                    self.agent_pos == old(self).agent_pos,
                    col < self.width,
                    row <= l,
                    l <= end || end < row,
                    end <= self.height,
                    end == obstacle_end(row, length, self.height),
                    forall|pos: Pos| #[trigger]
                        self.cell(pos) == if pos.1 == col && row <= pos.0 < l {
                            Some(MapNode::VerticalObstacle)
                        } else {
                            old(self).cell(pos)
                        },
                decreases end - l,
            {
                let ghost before = *self;
                self.grid[l][col] = MapNode::VerticalObstacle;
                l += 1;
                proof {
                    assert forall|pos: Pos| #[trigger]
                        self.cell(pos) == if pos.1 == col && row <= pos.0 < l {
                            Some(MapNode::VerticalObstacle)
                        } else {
                            old(self).cell(pos)
                        } by {
                        let was = before.cell(pos);
                    }
                }
            }
        }
        true
    }

    /// Whether an obstacle laid from row `row` and column `col` covers
    /// `pos`.
    pub open spec fn covered(self, is_horizontal: bool, length: usize, row: usize, col: usize, pos: Pos) -> bool {
        if is_horizontal {
            pos.0 == row && col <= pos.1 < obstacle_end(col, length, self.columns() as usize)
        } else {
            pos.1 == col && row <= pos.0 < obstacle_end(row, length, self.lines() as usize)
        }
    }

    /// The sign that stands for the cell at `pos` in a picture of the grid:
    /// a bar for an obstacle, a cross for the agent, a dot for cheap ground
    /// and a hatch for dear ground, and for a mark the mark itself.
    pub open spec fn sign(self, pos: Pos) -> Seq<char> {
        match self.cell(pos) {
            Some(MapNode::VerticalObstacle) => "┃"@,
            Some(MapNode::HorizontalObstacle) => "━"@,
            Some(MapNode::Path(cost)) => if pos == self.agent() {
                "╳"@
            } else if cost <= 5 {
                "·"@
            } else {
                "☷"@
            },
            Some(MapNode::Custom(mark)) => mark@,
            None => Seq::empty(),
        }
    }

    /// The sign for the cell in row `row` and column `col`.
    pub fn glyph(&self, row: usize, col: usize) -> (sign: &str)
        requires
            self.wf(),
            row < self.lines(),
            col < self.columns(),
        ensures
            sign@ == self.sign((row as i32, col as i32)),
    {
        match &self.grid[row][col] {
            MapNode::VerticalObstacle => "┃",
            MapNode::HorizontalObstacle => "━",
            MapNode::Path(cost) => {
                if self.agent_pos.0 == row as i32 && self.agent_pos.1 == col as i32 {
                    "╳"
                } else if *cost <= 5 {
                    "·"
                } else {
                    "☷"
                }
            },
            MapNode::Custom(mark) => mark.as_str(),
        }
    }

    /// A walk round `node`.
    pub fn neighbors(&self, node: Pos) -> (iter: NeighborIterator<'_>)
        requires
            self.wf(),
        ensures
            iter.mid() == node,
            iter.rows() == self.rows(),
            iter.size() == self.size(),
            iter.visited() == 0,
            iter.remaining() == self.walkable_neighbors(node),
    {
        NeighborIterator::new(node, &self.grid, (self.height, self.width))
    }

    /// Draws the mark `char` over the cell at `node`. A row off the grid
    /// leaves the grid as it is; in a row on the grid, the column has to
    /// be on the grid too.
    pub fn draw(&mut self, node: Pos, char: &str)
        requires
            old(self).wf(),
            0 <= node.0 < old(self).lines() ==> 0 <= node.1 < old(self).columns(),
        ensures
            final(self).wf(),
            final(self).lines() == old(self).lines(),
            final(self).columns() == old(self).columns(),
            final(self).agent() == old(self).agent(),
            forall|pos: Pos| pos != node ==> #[trigger] final(self).cell(pos) == old(self).cell(pos),
            old(self).contains(node) ==> (final(self).cell(node) matches Some(MapNode::Custom(mark))
                && mark@ == char@),
            !old(self).contains(node) ==> final(self).cell(node) == old(self).cell(node),
    {
        if node.0 >= 0 && (node.0 as usize) < self.grid.len() {
            let row: usize = node.0 as usize;
            let col: usize = node.1 as usize;
            self.grid[row][col] = MapNode::Custom(char.to_string());
        }
    }

    /// What it costs to step on `target`, which has to be open ground of a
    /// cost that is not negative, or no open ground at all.
    pub fn cost_adjacent(&self, target: Pos) -> (cost: usize)
        requires
            self.cell(target) matches Some(MapNode::Path(c)) ==> c >= 0,
        ensures
            cost == self.step_cost(target),
    {
        match lookup(&self.grid, target) {
            Some(MapNode::Path(c)) => *c as usize,
            _ => usize::MAX,
        }
    }

    /// The distance between `a` and `b` in steps, which has to fit an
    /// `i32`, as the distance in rows and the distance in columns have to.
    pub fn heuristic(&self, a: Pos, b: Pos) -> (distance: usize)
        requires
            i32::MIN < a.0 - b.0 <= i32::MAX,
            i32::MIN < a.1 - b.1 <= i32::MAX,
            manhattan(a, b) <= i32::MAX,
        ensures
            distance == manhattan(a, b),
    {
        let rows: i32 = a.0 - b.0;
        let cols: i32 = a.1 - b.1;
        let rows: i32 = if rows < 0 {
            -rows
        } else {
            rows
        };
        let cols: i32 = if cols < 0 {
            -cols
        } else {
            cols
        };
        (rows + cols) as usize
    }
}

} // verus!
