use crate::board::BoardView;
use crate::position::Position;
use crate::search::{lemma_settle_found, lemma_shortest_path, shortest_path, trace, Search};
use crate::terrain::{lemma_route_cost_at_least_octile, route_cost, walk_cost, Terrain};
use vstd::prelude::*;

verus! {

/// The coordinate `i` steps from `from` towards `to`, and `to` itself once it is reached.
pub open spec fn toward(from: usize, to: usize, i: int) -> usize {
    if to >= from {
        if i <= to - from {
            (from + i) as usize
        } else {
            to
        }
    } else {
        if i <= from - to {
            (from - i) as usize
        } else {
            to
        }
    }
}

/// The direct way from `a` to `b`: diagonal steps while both coordinates
/// differ, straight steps after that.
pub open spec fn direct_way(a: Position, b: Position) -> Seq<Position> {
    let steps = if a.dx(b) >= a.dy(b) {
        a.dx(b)
    } else {
        a.dy(b)
    };
    Seq::new(
        (steps + 1) as nat,
        |i: int| Position { x: toward(a.x, b.x, i), y: toward(a.y, b.y, i) },
    )
}

/// What the first `k` steps of the direct way cost.
proof fn lemma_direct_way_cost(a: Position, b: Position, k: int)
    requires
        0 <= k < direct_way(a, b).len(),
    ensures
        walk_cost(direct_way(a, b), k) == if k <= a.dx(b) && k <= a.dy(b) {
            14 * k
        } else if a.dx(b) <= a.dy(b) {
            14 * a.dx(b) + 10 * (k - a.dx(b))
        } else {
            14 * a.dy(b) + 10 * (k - a.dy(b))
        },
    decreases k,
{
    if k > 0 {
        lemma_direct_way_cost(a, b, k - 1);
        let way = direct_way(a, b);
        assert(way[k - 1] == Position { x: toward(a.x, b.x, k - 1), y: toward(a.y, b.y, k - 1) });
        assert(way[k] == Position { x: toward(a.x, b.x, k), y: toward(a.y, b.y, k) });
    }
}

/// On a grid without blocked cells the direct way from the start to the goal
/// is a route, and it costs the distance between the two.
pub proof fn lemma_direct_way_is_route(t: Terrain)
    requires
        t.wf(),
        t.is_open_field(),
    ensures
        t.is_route(direct_way(t.start, t.goal)),
        route_cost(direct_way(t.start, t.goal)) == t.start.octile(t.goal),
{
    let a = t.start;
    let b = t.goal;
    let way = direct_way(a, b);
    assert forall|i: int| 0 <= i < way.len() implies t.walkable(#[trigger] way[i]) by {
        assert(way[i] == Position { x: toward(a.x, b.x, i), y: toward(a.y, b.y, i) });
    }
    assert forall|i: int| 0 < i < way.len() implies way[i - 1].adjacent(#[trigger] way[i]) by {
        assert(way[i - 1] == Position { x: toward(a.x, b.x, i - 1), y: toward(a.y, b.y, i - 1) });
        assert(way[i] == Position { x: toward(a.x, b.x, i), y: toward(a.y, b.y, i) });
    }
    assert(way[0] == a);
    assert(way.last() == b);
    lemma_direct_way_cost(a, b, way.len() - 1);
}

/// On a grid without blocked cells the search finds a path, and the path
/// costs exactly the distance from the start to the goal: what the heuristic
/// estimates is what the way costs. This holds in particular where the goal
/// lies in the row, in the column or on a diagonal of the start.
pub proof fn lemma_open_field_cost(t: Terrain)
    requires
        t.wf(),
        t.is_open_field(),
    ensures
        t.is_route(shortest_path(t)),
        route_cost(shortest_path(t)) == t.start.octile(t.goal),
{
    lemma_direct_way_is_route(t);
    lemma_shortest_path(t);
    let way = direct_way(t.start, t.goal);
    assert(t.is_route(way));
    assert(t.reachable());
    lemma_route_cost_at_least_octile(t, shortest_path(t));
}

/// A walk that begins left of a fully blocked column stays left of it.
proof fn lemma_stays_left(t: Terrain, column: int, r: Seq<Position>, k: int)
    requires
        t.is_walk(r),
        forall|p: Position| t.in_bounds(p) && p.x == column ==> t.obstacles.contains(p),
        r[0].x < column,
        0 <= k < r.len(),
    ensures
        r[k].x < column,
    decreases k,
{
    if k > 0 {
        lemma_stays_left(t, column, r, k - 1);
        assert(r[k - 1].adjacent(r[k]));
        assert(t.walkable(r[k]));
    }
}

/// A walk that begins right of a fully blocked column stays right of it.
proof fn lemma_stays_right(t: Terrain, column: int, r: Seq<Position>, k: int)
    requires
        t.is_walk(r),
        forall|p: Position| t.in_bounds(p) && p.x == column ==> t.obstacles.contains(p),
        r[0].x > column,
        0 <= k < r.len(),
    ensures
        r[k].x > column,
    decreases k,
{
    if k > 0 {
        lemma_stays_right(t, column, r, k - 1);
        assert(r[k - 1].adjacent(r[k]));
        assert(t.walkable(r[k]));
    }
}

/// A walk that begins above a fully blocked row stays above it.
proof fn lemma_stays_above(t: Terrain, row: int, r: Seq<Position>, k: int)
    requires
        t.is_walk(r),
        forall|p: Position| t.in_bounds(p) && p.y == row ==> t.obstacles.contains(p),
        r[0].y < row,
        0 <= k < r.len(),
    ensures
        r[k].y < row,
    decreases k,
{
    if k > 0 {
        lemma_stays_above(t, row, r, k - 1);
        assert(r[k - 1].adjacent(r[k]));
        assert(t.walkable(r[k]));
    }
}

/// A walk that begins below a fully blocked row stays below it.
proof fn lemma_stays_below(t: Terrain, row: int, r: Seq<Position>, k: int)
    requires
        t.is_walk(r),
        forall|p: Position| t.in_bounds(p) && p.y == row ==> t.obstacles.contains(p),
        r[0].y > row,
        0 <= k < r.len(),
    ensures
        r[k].y > row,
    decreases k,
{
    if k > 0 {
        lemma_stays_below(t, row, r, k - 1);
        assert(r[k - 1].adjacent(r[k]));
        assert(t.walkable(r[k]));
    }
}

/// Where the goal cannot be reached, the search finds the empty path.
pub proof fn lemma_unreachable_gives_no_path(t: Terrain)
    requires
        t.wf(),
        !t.reachable(),
    ensures
        shortest_path(t) == Seq::<Position>::empty(),
{
    lemma_shortest_path(t);
    assert(shortest_path(t) =~= Seq::<Position>::empty());
}

/// A column blocked from top to bottom, with the start on one side and the
/// goal on the other, is a wall: the search finds the empty path.
pub proof fn lemma_blocked_column_gives_no_path(t: Terrain, column: int)
    requires
        t.wf(),
        forall|p: Position| t.in_bounds(p) && p.x == column ==> t.obstacles.contains(p),
        t.start.x < column < t.goal.x || t.goal.x < column < t.start.x,
    ensures
        shortest_path(t) == Seq::<Position>::empty(),
{
    if t.reachable() {
        let r = choose|r: Seq<Position>| t.is_route(r);
        if t.start.x < column {
            lemma_stays_left(t, column, r, r.len() - 1);
        } else {
            lemma_stays_right(t, column, r, r.len() - 1);
        }
    }
    lemma_unreachable_gives_no_path(t);
}

/// A row blocked from side to side, with the start on one side and the goal
/// on the other, is a wall: the search finds the empty path.
pub proof fn lemma_blocked_row_gives_no_path(t: Terrain, row: int)
    requires
        t.wf(),
        forall|p: Position| t.in_bounds(p) && p.y == row ==> t.obstacles.contains(p),
        t.start.y < row < t.goal.y || t.goal.y < row < t.start.y,
    ensures
        shortest_path(t) == Seq::<Position>::empty(),
{
    if t.reachable() {
        let r = choose|r: Seq<Position>| t.is_route(r);
        if t.start.y < row {
            lemma_stays_above(t, row, r, r.len() - 1);
        } else {
            lemma_stays_below(t, row, r, r.len() - 1);
        }
    }
    lemma_unreachable_gives_no_path(t);
}

/// Clearing a board twice leaves what clearing it once leaves, and a board
/// that was cleared is searched with the same result as one that was not.
pub proof fn lemma_reset_idempotent(v: BoardView)
    ensures
        v.cleared().cleared() == v.cleared(),
        v.cleared().terrain == v.terrain,
        v.cleared().searched() == v.searched(),
        v.cleared().cleared().searched() == v.searched(),
{
}

/// What a search finds depends on the grid, the blocked cells and the two
/// endpoints alone: two boards that agree in these are searched with the same
/// result, whatever earlier searches left on them.
pub proof fn lemma_search_repeatable(first: BoardView, second: BoardView)
    requires
        first.terrain.width == second.terrain.width,
        first.terrain.heigth == second.terrain.heigth,
        first.terrain.start == second.terrain.start,
        first.terrain.goal == second.terrain.goal,
        forall|p: Position|
            first.terrain.obstacles.contains(p) <==> second.terrain.obstacles.contains(p),
    ensures
        first.searched() == second.searched(),
        first.searched().searched() == first.searched(),
{
    assert(first.terrain.obstacles =~= second.terrain.obstacles);
}

/// Where the start is the goal, the path that the search finds is that one cell.
pub proof fn lemma_start_on_goal(t: Terrain)
    requires
        t.wf(),
        t.start == t.goal,
    ensures
        shortest_path(t) == seq![t.start],
{
    let s = Search::init(t);
    assert(s.is_open(t, t.start));
    assert(s.is_best(t, t.goal));
    assert(0 < t.cells()) by (nonlinear_arith)
        requires
            0 < t.width,
            0 < t.heigth,
            t.cells() == t.width * t.heigth,
    ;
    lemma_settle_found(t, s);
    assert(trace(s.nodes, t.goal, t.cells() as nat) =~= seq![t.start]);
}

} // verus!
