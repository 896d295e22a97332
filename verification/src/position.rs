use rand::rngs::ThreadRng;
use rand::Rng;
use vstd::prelude::*;

verus! {

/// A cell of the grid, by column `x` and row `y`.
#[derive(Clone, Copy, Debug, PartialEq, Eq, Hash, Structural)]
pub struct Position {
    pub x: usize,
    pub y: usize,
}

/// Cost of one step to a cell that shares a row or a column.
pub const STRAIGHT_COST: i32 = 10;

/// Cost of one step to a cell that touches only by a corner.
pub const DIAGONAL_COST: i32 = 14;

/// The distance between two coordinates on one axis.
pub open spec fn gap(a: int, b: int) -> int {
    if a >= b {
        a - b
    } else {
        b - a
    }
}

impl Position {
    /// Columns between the two cells.
    pub open spec fn dx(self, other: Position) -> int {
        gap(self.x as int, other.x as int)
    }

    /// Rows between the two cells.
    pub open spec fn dy(self, other: Position) -> int {
        gap(self.y as int, other.y as int)
    }

    /// The octile distance: as many diagonal steps as both axes allow, the
    /// rest straight.
    pub open spec fn octile(self, other: Position) -> int {
        let dx = self.dx(other);
        let dy = self.dy(other);
        if dx <= dy {
            14 * dx + 10 * (dy - dx)
        } else {
            14 * dy + 10 * (dx - dy)
        }
    }

    /// Two different cells that touch by a side or by a corner.
    pub open spec fn adjacent(self, other: Position) -> bool {
        self != other && self.dx(other) <= 1 && self.dy(other) <= 1
    }

    /// What one step between two touching cells costs.
    pub open spec fn step_cost(self, other: Position) -> int {
        if self.x == other.x || self.y == other.y {
            10
        } else {
            14
        }
    }

    /// This cell comes before `other` where cells are counted column after
    /// column, each column from its first row on.
    pub open spec fn stands_before(self, other: Position) -> bool {
        self.x < other.x || (self.x == other.x && self.y < other.y)
    }

    /// The cell lies inside a grid of `width` columns and `heigth` rows.
    pub open spec fn inside(self, width: int, heigth: int) -> bool {
        self.x < width && self.y < heigth
    }

    /// The cell in column `x` and row `y`.
    pub fn new(x: usize, y: usize) -> (p: Position)
        ensures
            p.x == x,
            p.y == y,
    {
        Position { x: x, y: y }
    }

    /// A cell of a grid of `heigth` rows and `width` columns, drawn at random.
    /// Nothing but its bounds is known of it.
    pub fn generate_random_position(heigth: usize, width: usize) -> (p: Position)
        requires
            heigth > 0,
            width > 0,
        ensures
            p.inside(width as int, heigth as int),
    {
        let mut rng = thread_rng();
        let random_start_x: usize = random_below(&mut rng, width);
        let random_start_y: usize = random_below(&mut rng, heigth);
        Position::new(random_start_x, random_start_y)
    }

    /// The heuristic distance to `other_point`, in step costs.
    pub fn distance_to_other_position(self, other_point: Position) -> (d: i32)
        requires
            self.octile(other_point) <= i32::MAX,
        ensures
            d == self.octile(other_point),
    {
        let x_distance: usize = if self.x >= other_point.x {
            self.x - other_point.x
        } else {
            other_point.x - self.x
        };
        let y_distance: usize = if self.y >= other_point.y {
            self.y - other_point.y
        } else {
            other_point.y - self.y
        };
        let (shorter, longer): (usize, usize) = if x_distance <= y_distance {
            (x_distance, y_distance)
        } else {
            (y_distance, x_distance)
        };
        let remaining: usize = longer - shorter;
        DIAGONAL_COST * (shorter as i32) + STRAIGHT_COST * (remaining as i32)
    }

    /// What a step from this cell to the touching cell `other` costs.
    pub fn cost_to(self, other: Position) -> (c: i32)
        ensures
            c == self.step_cost(other),
    {
        if self.x == other.x || self.y == other.y {
            STRAIGHT_COST
        } else {
            DIAGONAL_COST
        }
    }

    /// The first place at which this cell stands in `list`, if it stands there.
    pub fn find_in(self, list: &Vec<Position>) -> (found: Option<usize>)
        ensures
            match found {
                Some(i) => i < list@.len() && list@[i as int] == self && forall|k: int|
                    0 <= k < i ==> list@[k] != self,
                None => !list@.contains(self),
            },
    {
        let mut i: usize = 0;
        while i < list.len()
            invariant
                i <= list@.len(),
                forall|k: int| 0 <= k < i ==> list@[k] != self,
            decreases list@.len() - i,
        {
            if list[i] == self {
                return Some(i);
            }
            i = i + 1;
        }
        None
    }

    /// The cells that touch this one and lie inside a grid of `width` columns
    /// and `heigth` rows: at most eight, each once, column after column and
    /// each column from its first row on.
    pub fn neighbors(self, width: usize, heigth: usize) -> (cells: Vec<Position>)
        ensures
            forall|q: Position|
                #![trigger cells@.contains(q)]
                cells@.contains(q) <==> self.adjacent(q) && q.inside(width as int, heigth as int),
            forall|i: int, j: int|
                0 <= i < j < cells@.len() ==> (#[trigger] cells@[i]).stands_before(
                    #[trigger] cells@[j],
                ),
            cells@.no_duplicates(),
    {
        let x_from: usize = if self.x >= 1 { self.x - 1 } else { 0 };
        let y_from: usize = if self.y >= 1 { self.y - 1 } else { 0 };
        let x_until: usize = if width >= 2 && self.x <= width - 2 { self.x + 2 } else { width };
        let y_until: usize = if heigth >= 2 && self.y <= heigth - 2 { self.y + 2 } else { heigth };
        let mut cells: Vec<Position> = Vec::new();
        let mut cx: usize = x_from;
        while cx < x_until
            invariant
                x_from <= cx,
                forall|q: Position|
                    cells@.contains(q) <==> q != self && x_from <= q.x < x_until && y_from <= q.y
                        < y_until && q.x < cx,
                forall|i: int, j: int|
                    0 <= i < j < cells@.len() ==> (#[trigger] cells@[i]).stands_before(
                        #[trigger] cells@[j],
                    ),
            decreases x_until - cx,
        {
            let mut cy: usize = y_from;
            while cy < y_until
                invariant
                    x_from <= cx < x_until,
                    y_from <= cy,
                    forall|q: Position|
                        cells@.contains(q) <==> q != self && x_from <= q.x < x_until && y_from
                            <= q.y < y_until && (q.x < cx || (q.x == cx && q.y < cy)),
                    forall|i: int, j: int|
                        0 <= i < j < cells@.len() ==> (#[trigger] cells@[i]).stands_before(
                            #[trigger] cells@[j],
                        ),
                decreases y_until - cy,
            {
                let here = Position::new(cx, cy);
                let ghost before = cells@;
                if here != self {
                    cells.push(here);
                    proof {
                        assert forall|i: int, j: int| 0 <= i < j < cells@.len() implies (
                        #[trigger] cells@[i]).stands_before(#[trigger] cells@[j]) by {
                            assert(before.contains(cells@[i]));
                        }
                    }
                }
                proof {
                    assert forall|q: Position|
                        cells@.contains(q) <==> q != self && x_from <= q.x < x_until && y_from
                            <= q.y < y_until && (q.x < cx || (q.x == cx && q.y < cy + 1)) by {
                        if q.x == cx && q.y == cy {
                            assert(q == here);
                        }
                        if here != self {
                            if before.contains(q) {
                                let i = choose|i: int| 0 <= i < before.len() && before[i] == q;
                                assert(cells@[i] == q);
                            }
                            if cells@.contains(q) {
                                let i = choose|i: int| 0 <= i < cells@.len() && cells@[i] == q;
                                if i < before.len() {
                                    assert(before[i] == q);
                                }
                            }
                            if q == here {
                                assert(cells@[before.len() as int] == q);
                            }
                        }
                    }
                }
                cy = cy + 1;
            }
            cx = cx + 1;
        }
        cells
    }
}

/// Declares `rand::rngs::ThreadRng`, the generator that `rand::thread_rng` hands out,
/// as a value that is only passed on.
#[verifier::external_type_specification]
#[verifier::external_body]
pub struct ExThreadRng(ThreadRng);

/// `rand::thread_rng`: the calling thread's generator. Nothing is claimed of
/// it. The call fails only where the system has no randomness to seed it with.
#[verifier::external_body]
fn thread_rng() -> (rng: ThreadRng) {
    rand::thread_rng()
}

/// `rand::Rng::gen_range` on the half-open range from 0 to `bound`: whatever
/// number comes out lies below `bound`. An empty range is left out, since the
/// call panics on it.
#[verifier::external_body]
fn random_below(rng: &mut ThreadRng, bound: usize) -> (n: usize)
    requires
        bound > 0,
    ensures
        n < bound,
{
    rng.gen_range(0..bound)
}

} // verus!
