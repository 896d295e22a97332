use crate::position::Position;
use vstd::prelude::*;

verus! {

/// The search record of one cell: what the search knows of the way to it.
#[derive(Clone, Copy, Debug, PartialEq, Eq)]
pub struct Node {
    /// The cell this one was reached from; none for the start and for a cell
    /// not reached.
    pub comes_from: Option<Position>,
    pub pos: Position,
    /// Cost of the cheapest known way from the start.
    pub g_cost: Option<i32>,
    /// Estimated cost of the way on to the goal.
    pub h_cost: Option<i32>,
    /// The sum of the two, where both are known.
    pub f_cost: Option<i32>,
}

/// The priority of a record: the sum of both costs, where both are known.
pub open spec fn f_cost_of(g_cost: Option<i32>, h_cost: Option<i32>) -> Option<i32> {
    match (g_cost, h_cost) {
        (Some(g), Some(h)) => Some((g + h) as i32),
        _ => None,
    }
}

/// The priority that belongs to the two costs.
pub fn get_f_cost(g_cost: Option<i32>, h_cost: Option<i32>) -> (f_cost: Option<i32>)
    requires
        g_cost is Some && h_cost is Some ==> i32::MIN <= g_cost.unwrap() + h_cost.unwrap()
            <= i32::MAX,
    ensures
        f_cost == f_cost_of(g_cost, h_cost),
{
    if let Some(g_cost_found) = g_cost {
        if let Some(h_cost_found) = h_cost {
            return Some(g_cost_found + h_cost_found);
        }
    }
    None
}

impl Node {
    /// The costs are not negative and the priority is their sum.
    pub open spec fn wf(self) -> bool {
        &&& self.g_cost matches Some(g) ==> g >= 0
        &&& self.h_cost matches Some(h) ==> h >= 0
        &&& self.g_cost is Some && self.h_cost is Some ==> self.g_cost.unwrap()
            + self.h_cost.unwrap() <= i32::MAX
        &&& self.f_cost == f_cost_of(self.g_cost, self.h_cost)
    }

    /// A way to the cell is known.
    pub open spec fn discovered(self) -> bool {
        self.g_cost is Some
    }

    /// The record of a cell that the search has not reached.
    pub open spec fn blank(pos: Position) -> Node {
        Node { comes_from: None, pos: pos, g_cost: None, h_cost: None, f_cost: None }
    }

    /// The record of the cell a search starts from.
    pub open spec fn origin(pos: Position, goal: Position) -> Node {
        Node {
            comes_from: None,
            pos: pos,
            g_cost: Some(0),
            h_cost: Some(pos.octile(goal) as i32),
            f_cost: Some(pos.octile(goal) as i32),
        }
    }

    /// The estimate for the way on to `goal`: the one the record holds, else
    /// the distance from its cell.
    pub open spec fn estimate(self, goal: Position) -> int {
        match self.h_cost {
            Some(h) => h as int,
            None => self.pos.octile(goal),
        }
    }

    /// A way of cost `g_cost` is news to this record: it has none, or a dearer one.
    pub open spec fn improved_by(self, g_cost: int) -> bool {
        match self.g_cost {
            Some(g) => g_cost < g,
            None => true,
        }
    }

    /// The record after a way of cost `g_cost` through `from` was taken up.
    pub open spec fn relaxed(self, from: Position, g_cost: int, goal: Position) -> Node {
        Node {
            comes_from: Some(from),
            pos: self.pos,
            g_cost: Some(g_cost as i32),
            h_cost: Some(self.estimate(goal) as i32),
            f_cost: Some((g_cost + self.estimate(goal)) as i32),
        }
    }

    /// The order in which reached cells are taken up: by priority, then by
    /// estimate, then by row, then by column.
    pub open spec fn precedes(self, other: Node) -> bool {
        let f = self.f_cost.unwrap();
        let h = self.h_cost.unwrap();
        let other_f = other.f_cost.unwrap();
        let other_h = other.h_cost.unwrap();
        f < other_f || (f == other_f && (h < other_h || (h == other_h && (self.pos.y < other.pos.y
            || (self.pos.y == other.pos.y && self.pos.x < other.pos.x)))))
    }

    /// A record with the given origin and costs, and the priority that
    /// belongs to the costs.
    pub fn new(
        comes_from: Option<Position>,
        position: Position,
        g_cost: Option<i32>,
        h_cost: Option<i32>,
    ) -> (node: Node)
        requires
            g_cost matches Some(g) ==> g >= 0,
            h_cost matches Some(h) ==> h >= 0,
            g_cost is Some && h_cost is Some ==> g_cost.unwrap() + h_cost.unwrap() <= i32::MAX,
        ensures
            node == (Node {
                comes_from: comes_from,
                pos: position,
                g_cost: g_cost,
                h_cost: h_cost,
                f_cost: f_cost_of(g_cost, h_cost),
            }),
            node.wf(),
    {
        Node {
            comes_from,
            pos: position,
            g_cost,
            h_cost,
            f_cost: get_f_cost(g_cost, h_cost),
        }
    }

    /// The cell is none of `obstacles`.
    pub fn walkable(&self, obstacles: &Vec<Position>) -> (free: bool)
        ensures
            free == !obstacles@.contains(self.pos),
    {
        self.pos.find_in(obstacles).is_none()
    }

    /// Forgets what a search found: the record is that of a cell not reached.
    pub fn reset(&mut self)
        ensures
            *final(self) == Node::blank(old(self).pos),
    {
        self.g_cost = None;
        self.comes_from = None;
        self.h_cost = None;
        self.f_cost = None;
    }

    /// Offers the record a way of cost `g_cost` through `from`. It takes the
    /// way up if it has none yet or only a dearer one, and says whether it did.
    /// The estimate is set when the cell is first reached and kept after that.
    pub fn relax(&mut self, from: Position, g_cost: i32, goal: Position) -> (updated: bool)
        requires
            old(self).wf(),
            g_cost >= 0,
            g_cost + old(self).estimate(goal) <= i32::MAX,
        ensures
            updated == old(self).improved_by(g_cost as int),
            *final(self) == if updated {
                old(self).relaxed(from, g_cost as int, goal)
            } else {
                *old(self)
            },
            final(self).wf(),
    {
        let better: bool = match self.g_cost {
            Some(known) => g_cost < known,
            None => true,
        };
        if better {
            let h_cost: i32 = match self.h_cost {
                Some(h) => h,
                None => self.pos.distance_to_other_position(goal),
            };
            self.comes_from = Some(from);
            self.g_cost = Some(g_cost);
            self.h_cost = Some(h_cost);
            self.f_cost = get_f_cost(self.g_cost, self.h_cost);
        }
        better
    }

    /// Whether this record is taken up before `other`.
    pub fn goes_before(&self, other: &Node) -> (first: bool)
        requires
            self.f_cost is Some,
            self.h_cost is Some,
            other.f_cost is Some,
            other.h_cost is Some,
        ensures
            first == self.precedes(*other),
    {
        let f: i32 = self.f_cost.unwrap();
        let h: i32 = self.h_cost.unwrap();
        let other_f: i32 = other.f_cost.unwrap();
        let other_h: i32 = other.h_cost.unwrap();
        f < other_f || (f == other_f && (h < other_h || (h == other_h && (self.pos.y < other.pos.y
            || (self.pos.y == other.pos.y && self.pos.x < other.pos.x)))))
    }
}

} // verus!
