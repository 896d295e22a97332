use crate::position::Position;
use vstd::prelude::*;

verus! {

/// The most cells a board may have: with this many, no cost of a way leaves `i32`.
pub const MAX_CELLS: usize = 76_695_844;

/// Why a board refused a change.
#[derive(Clone, Copy, Debug, PartialEq, Eq, Structural)]
pub enum BoardError {
    /// The cell lies outside the grid.
    OutOfBounds,
    /// The change would block the start or the goal, or put one of them on a
    /// blocked cell.
    InvalidEndpoint,
}

/// What a search depends on: the size of the grid, the blocked cells and the
/// two endpoints.
pub struct Terrain {
    pub width: int,
    pub heigth: int,
    pub obstacles: Set<Position>,
    pub start: Position,
    pub goal: Position,
}

impl Terrain {
    /// A cell of the grid.
    pub open spec fn in_bounds(self, p: Position) -> bool {
        p.inside(self.width, self.heigth)
    }

    /// A cell of the grid that is not blocked.
    pub open spec fn walkable(self, p: Position) -> bool {
        self.in_bounds(p) && !self.obstacles.contains(p)
    }

    /// The number of cells of the grid.
    pub open spec fn cells(self) -> int {
        self.width * self.heigth
    }

    /// Where the record of a cell stands in the table, which is stored column by column.
    pub open spec fn index(self, p: Position) -> int {
        p.y + p.x * self.heigth
    }

    /// The grid is not empty and not too large, and both endpoints are free cells of it.
    pub open spec fn wf(self) -> bool {
        &&& 0 < self.width
        &&& 0 < self.heigth
        &&& self.cells() <= MAX_CELLS
        &&& self.walkable(self.start)
        &&& self.walkable(self.goal)
    }

    /// Why `p` cannot be a blocked cell, if it cannot: it lies outside the
    /// grid, or it is the start or the goal.
    pub open spec fn refusal(self, p: Position) -> Option<BoardError> {
        if !self.in_bounds(p) {
            Some(BoardError::OutOfBounds)
        } else if p == self.start || p == self.goal {
            Some(BoardError::InvalidEndpoint)
        } else {
            None
        }
    }

    /// Why `p` cannot be the start or the goal, if it cannot: it lies outside
    /// the grid, or it is blocked.
    pub open spec fn endpoint_refusal(self, p: Position) -> Option<BoardError> {
        if !self.in_bounds(p) {
            Some(BoardError::OutOfBounds)
        } else if self.obstacles.contains(p) {
            Some(BoardError::InvalidEndpoint)
        } else {
            None
        }
    }

    /// Why the cells of `list` cannot be the blocked cells, if they cannot:
    /// one of them lies outside the grid, or, where none does, one of them is
    /// the start or the goal.
    pub open spec fn refusal_of_all(self, list: Seq<Position>) -> Option<BoardError> {
        if exists|i: int| 0 <= i < list.len() && !self.in_bounds(#[trigger] list[i]) {
            Some(BoardError::OutOfBounds)
        } else if exists|i: int|
            0 <= i < list.len() && (#[trigger] list[i] == self.start || list[i] == self.goal) {
            Some(BoardError::InvalidEndpoint)
        } else {
            None
        }
    }

    /// A sequence of free cells, each touching the one before it.
    pub open spec fn is_walk(self, r: Seq<Position>) -> bool {
        &&& r.len() > 0
        &&& forall|i: int| 0 <= i < r.len() ==> self.walkable(#[trigger] r[i])
        &&& forall|i: int| 0 < i < r.len() ==> r[i - 1].adjacent(#[trigger] r[i])
    }

    /// A walk from the start to the goal.
    pub open spec fn is_route(self, r: Seq<Position>) -> bool {
        self.is_walk(r) && r[0] == self.start && r.last() == self.goal
    }

    /// Some walk leads from the start to the goal.
    pub open spec fn reachable(self) -> bool {
        exists|r: Seq<Position>| self.is_route(r)
    }

    /// No cell is blocked.
    pub open spec fn is_open_field(self) -> bool {
        forall|p: Position| !self.obstacles.contains(p)
    }
}

/// What the first `k` steps of `r` cost together.
pub open spec fn walk_cost(r: Seq<Position>, k: int) -> int
    decreases k,
{
    if k <= 0 {
        0
    } else {
        walk_cost(r, k - 1) + r[k - 1].step_cost(r[k])
    }
}

/// What all the steps of `r` cost together.
pub open spec fn route_cost(r: Seq<Position>) -> int {
    walk_cost(r, r.len() - 1)
}

/// The distance is consistent with the step costs: one step changes it by
/// no more than the step costs.
pub proof fn lemma_octile_step(a: Position, b: Position, goal: Position)
    requires
        a.adjacent(b),
    ensures
        a.octile(goal) <= a.step_cost(b) + b.octile(goal),
{
}

/// Along a walk the distance to `goal` falls by no more than the steps cost.
pub proof fn lemma_octile_along(t: Terrain, r: Seq<Position>, i: int, k: int, goal: Position)
    requires
        t.is_walk(r),
        0 <= i <= k < r.len(),
    ensures
        walk_cost(r, i) + r[i].octile(goal) <= walk_cost(r, k) + r[k].octile(goal),
    decreases k - i,
{
    if i < k {
        lemma_octile_along(t, r, i, k - 1, goal);
        assert(r[k - 1].adjacent(r[k]));
        lemma_octile_step(r[k - 1], r[k], goal);
    }
}

/// A walk costs nothing less than the distance between its ends.
pub proof fn lemma_route_cost_at_least_octile(t: Terrain, r: Seq<Position>)
    requires
        t.is_walk(r),
    ensures
        r[0].octile(r.last()) <= route_cost(r),
{
    lemma_octile_along(t, r, 0, r.len() - 1, r.last());
}

/// The cost of the first steps of a walk does not change when the walk goes on.
pub proof fn lemma_walk_cost_push(r: Seq<Position>, p: Position, k: int)
    requires
        0 <= k < r.len(),
    ensures
        walk_cost(r.push(p), k) == walk_cost(r, k),
    decreases k,
{
    if k > 0 {
        lemma_walk_cost_push(r, p, k - 1);
        assert(r.push(p)[k - 1] == r[k - 1]);
        assert(r.push(p)[k] == r[k]);
    }
}

/// One more step adds its cost.
pub proof fn lemma_route_cost_push(r: Seq<Position>, p: Position)
    requires
        r.len() > 0,
    ensures
        route_cost(r.push(p)) == route_cost(r) + r.last().step_cost(p),
{
    let longer = r.push(p);
    lemma_walk_cost_push(r, p, r.len() - 1);
    assert(longer[r.len() - 1] == r.last());
    assert(longer[r.len() as int] == p);
}

/// Each cell of the grid has its own place in the table.
pub proof fn lemma_index_in_table(t: Terrain, p: Position)
    requires
        0 < t.heigth,
        t.in_bounds(p),
    ensures
        0 <= t.index(p) < t.cells(),
{
    assert(p.x * t.heigth + t.heigth <= t.width * t.heigth) by (nonlinear_arith)
        requires
            0 <= p.x < t.width,
            0 < t.heigth,
    ;
    assert(0 <= p.x * t.heigth) by (nonlinear_arith)
        requires
            0 <= p.x,
            0 < t.heigth,
    ;
}

/// On a grid no distance exceeds the cost of one diagonal step for each cell.
pub proof fn lemma_octile_on_grid(t: Terrain, p: Position, q: Position)
    requires
        0 < t.width,
        0 < t.heigth,
        t.in_bounds(p),
        t.in_bounds(q),
    ensures
        0 <= p.octile(q) <= 14 * t.cells(),
{
    assert(t.width <= t.width * t.heigth && t.heigth <= t.width * t.heigth) by (nonlinear_arith)
        requires
            0 < t.width,
            0 < t.heigth,
    ;
}

/// In a table stored column by column, the cells of earlier columns and the
/// earlier cells of one column stand first.
pub proof fn lemma_column_order(heigth: int, px: int, py: int, x: int, y: int)
    requires
        0 <= py < heigth,
        0 <= y <= heigth,
        0 <= px,
        px < x || (px == x && py < y),
    ensures
        py + px * heigth < y + x * heigth,
{
    if px < x {
        assert(px * heigth + heigth <= x * heigth) by (nonlinear_arith)
            requires
                px < x,
                0 < heigth,
        ;
    }
}

/// No two cells of the grid share a place in the table.
pub proof fn lemma_index_injective(t: Terrain, p: Position, q: Position)
    requires
        t.in_bounds(p),
        t.in_bounds(q),
        t.index(p) == t.index(q),
    ensures
        p == q,
{
    if p.x < q.x || (p.x == q.x && p.y < q.y) {
        lemma_column_order(t.heigth, p.x as int, p.y as int, q.x as int, q.y as int);
    } else if q.x < p.x || (q.x == p.x && q.y < p.y) {
        lemma_column_order(t.heigth, q.x as int, q.y as int, p.x as int, p.y as int);
    }
}

} // verus!
