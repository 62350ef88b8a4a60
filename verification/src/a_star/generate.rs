use vstd::prelude::*;
use rand::rngs::ThreadRng;
use rand::Rng;
use crate::a_star::grid::{GridMap, MapNode, Pos};

verus! {

/// The random number generator of a thread, from `rand`. Nothing of its
/// state is known here; it is handed through to where a number is drawn.
#[verifier::external_type_specification]
#[verifier::external_body]
pub struct ExThreadRng(ThreadRng);

/// `Rng::gen_range` draws a number from the range it is given, and panics
/// if the range is empty. Which number comes is open; that it lies from
/// `low` up to, not including, `high` holds of each.
#[verifier::external_body]
fn draw(rng: &mut ThreadRng, low: usize, high: usize) -> (drawn: usize)
    requires
        low < high,
    ensures
        low <= drawn < high,
{
    rng.gen_range(low..high)
}

/// The costs of open ground lie below this.
pub const COSTS: usize = 12;

impl GridMap {
    /// Whether every cell is open ground of a cost below `COSTS`.
    pub open spec fn all_open(self) -> bool {
        forall|pos: Pos|
            self.contains(pos) ==> (#[trigger] self.cell(pos) matches Some(MapNode::Path(c)) && 0
                <= c < COSTS)
    }

    /// Whether an obstacle of the length `length` may be drawn at: none
    /// shorter than a tenth of the grid, none as long as a third of it.
    pub open spec fn obstacle_length(self, is_horizontal: bool, length: usize) -> bool {
        if is_horizontal {
            self.columns() / 10 <= length < self.columns() / 3
        } else {
            self.lines() / 10 <= length < self.lines() / 3
        }
    }

    /// Whether `after` is this map with an obstacle laid from the cell in
    /// row `row` and column `col`, which was open ground.
    pub open spec fn with_obstacle(
        self,
        after: GridMap,
        is_horizontal: bool,
        length: usize,
        row: usize,
        col: usize,
    ) -> bool {
        forall|pos: Pos| #[trigger]
            after.cell(pos) == if self.covered(is_horizontal, length, row, col, pos) {
                Some(
                    if is_horizontal {
                        MapNode::HorizontalObstacle
                    } else {
                        MapNode::VerticalObstacle
                    },
                )
            } else {
                self.cell(pos)
            }
    }

    /// Whether `after` is this map after an obstacle was tried from the
    /// cell in row `row` and column `col`: with the obstacle laid from
    /// there, if that cell was open ground, and as it was, if not.
    pub open spec fn after_try(
        self,
        after: GridMap,
        is_horizontal: bool,
        length: usize,
        row: usize,
        col: usize,
    ) -> bool {
        if self.walkable((row as i32, col as i32)) {
            self.with_obstacle(after, is_horizontal, length, row, col)
        } else {
            forall|pos: Pos| #[trigger] after.cell(pos) == self.cell(pos)
        }
    }

    /// Makes every cell open ground, at a cost drawn for it.
    pub fn scatter_costs(&mut self, rng: &mut ThreadRng)
        requires
            old(self).wf(),
        ensures
            final(self).wf(),
            final(self).lines() == old(self).lines(),
            final(self).columns() == old(self).columns(),
            final(self).agent() == old(self).agent(),
            final(self).all_open(),
    {
        let height: usize = self.height();
        let width: usize = self.width();
        let mut row: usize = 0;
        while row < height
            invariant
                self.wf(),
                height == self.lines() == old(self).lines(),
                width == self.columns() == old(self).columns(),
                self.agent() == old(self).agent(),
                row <= height,
                forall|pos: Pos|
                    0 <= pos.0 < row && 0 <= pos.1 < width ==> (#[trigger] self.cell(pos) matches Some(
                        MapNode::Path(c),
                    ) && 0 <= c < COSTS),
            decreases height - row,
        {
            let mut col: usize = 0;
            while col < width
                invariant
                    self.wf(),
                    height == self.lines() == old(self).lines(),
                    width == self.columns() == old(self).columns(),
                    self.agent() == old(self).agent(),
                    row < height,
                    col <= width,
                    forall|pos: Pos|
                        (0 <= pos.0 < row && 0 <= pos.1 < width) || (pos.0 == row && 0 <= pos.1
                            < col) ==> (#[trigger] self.cell(pos) matches Some(MapNode::Path(c))
                            && 0 <= c < COSTS),
                decreases width - col,
            {
                let ghost before = *self;
                let cost: usize = draw(rng, 0, COSTS);
                self.set_cost(row, col, cost as i32);
                proof {
                    assert forall|pos: Pos|
                        (0 <= pos.0 < row && 0 <= pos.1 < width) || (pos.0 == row && 0 <= pos.1 < col
                            + 1) implies (#[trigger] self.cell(pos) matches Some(MapNode::Path(c))
                        && 0 <= c < COSTS) by {
                        let was = before.cell(pos);
                    }
                }
                col += 1;
            }
            row += 1;
        }
    }

    /// Draws where an obstacle starts and how long it is, and lays it east
    /// if `is_horizontal` and south if not, provided that it starts on
    /// open ground; says whether it did. Which length and which cell are
    /// drawn is open; whatever they are, the length is one that may be
    /// drawn, the cell lies on the grid, the obstacle is placed exactly if
    /// that cell was open ground, and the map is then what laying the
    /// obstacle from there makes of it, and else as it was. So on a grid
    /// of open ground an obstacle is always placed, and on a grid without
    /// open ground never. The grid has to be large enough for a length to
    /// be drawn: three cells at least along the obstacle.
    pub fn try_obstacle(&mut self, rng: &mut ThreadRng, is_horizontal: bool) -> (placed: bool)
        requires
            old(self).wf(),
            old(self).lines() > 0,
            old(self).columns() > 0,
            is_horizontal ==> old(self).columns() / 10 < old(self).columns() / 3,
            !is_horizontal ==> old(self).lines() / 10 < old(self).lines() / 3,
        ensures
            final(self).wf(),
            final(self).lines() == old(self).lines(),
            final(self).columns() == old(self).columns(),
            final(self).agent() == old(self).agent(),
            exists|length: usize, row: usize, col: usize|
                {
                    &&& old(self).obstacle_length(is_horizontal, length)
                    &&& row < old(self).lines()
                    &&& col < old(self).columns()
                    &&& placed == old(self).walkable((row as i32, col as i32))
                    &&& #[trigger] old(self).after_try(
                        *final(self),
                        is_horizontal,
                        length,
                        row,
                        col,
                    )
                },
            !placed ==> forall|pos: Pos| #[trigger] final(self).cell(pos) == old(self).cell(pos),
            (forall|pos: Pos| old(self).contains(pos) ==> #[trigger] old(self).walkable(pos))
                ==> placed,
            (forall|pos: Pos| old(self).contains(pos) ==> !#[trigger] old(self).walkable(pos))
                ==> !placed,
    {
        let length: usize = if is_horizontal {
            draw(rng, self.width() / 10, self.width() / 3)
        } else {
            draw(rng, self.height() / 10, self.height() / 3)
        };
        let row: usize = draw(rng, 0, self.height());
        let col: usize = draw(rng, 0, self.width());
        let placed = self.place_obstacle(is_horizontal, length, row, col);
        proof {
            if placed {
                assert(old(self).with_obstacle(*self, is_horizontal, length, row, col));
            }
            assert(old(self).after_try(*self, is_horizontal, length, row, col));
            assert(old(self).contains((row as i32, col as i32)));
        }
        placed
    }
}

} // verus!
