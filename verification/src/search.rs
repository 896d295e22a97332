use crate::consistency::{
    inv, lemma_best_exists, lemma_exhausted, lemma_expand_keeps_inv, lemma_found, lemma_init_inv,
    lemma_records_in_order, lemma_room,
};
use crate::node::Node;
use crate::position::Position;
use crate::terrain::{route_cost, Terrain};
use vstd::prelude::*;

verus! {

/// The state of a search between two expansions: the record of each cell,
/// the cells already expanded, and how many those are.
pub struct Search {
    pub nodes: Map<Position, Node>,
    pub closed: Set<Position>,
    pub steps: nat,
}

impl Search {
    /// A way to `p` is known.
    pub open spec fn discovered(self, p: Position) -> bool {
        self.nodes[p].g_cost is Some
    }

    /// Cost of the cheapest way to `p` that is known.
    pub open spec fn g(self, p: Position) -> int {
        self.nodes[p].g_cost.unwrap() as int
    }

    /// The frontier: cells reached and not yet expanded.
    pub open spec fn is_open(self, t: Terrain, p: Position) -> bool {
        t.in_bounds(p) && self.discovered(p) && !self.closed.contains(p)
    }

    /// The frontier is not empty.
    pub open spec fn has_open(self, t: Terrain) -> bool {
        exists|p: Position| self.is_open(t, p)
    }

    /// `p` is the cell of the frontier that goes before every other.
    pub open spec fn is_best(self, t: Terrain, p: Position) -> bool {
        &&& self.is_open(t, p)
        &&& forall|q: Position| #[trigger]
            self.is_open(t, q) && q != p ==> self.nodes[p].precedes(self.nodes[q])
    }

    /// The cell to expand next.
    pub open spec fn best(self, t: Terrain) -> Position {
        choose|p: Position| self.is_best(t, p)
    }

    /// Expanding `c` changes the record of `p`: `p` is a free cell next to `c`,
    /// not yet expanded, and the way through `c` is the first or a cheaper one.
    pub open spec fn relaxes(self, t: Terrain, c: Position, p: Position) -> bool {
        &&& c.adjacent(p)
        &&& t.walkable(p)
        &&& !self.closed.contains(p)
        &&& self.nodes[p].improved_by(self.g(c) + c.step_cost(p))
    }

    /// The state after `c` was expanded.
    pub open spec fn expand(self, t: Terrain, c: Position) -> Search {
        Search {
            nodes: Map::new(
                |p: Position| t.in_bounds(p),
                |p: Position|
                    if self.relaxes(t, c, p) {
                        self.nodes[p].relaxed(c, self.g(c) + c.step_cost(p), t.goal)
                    } else {
                        self.nodes[p]
                    },
            ),
            closed: self.closed.insert(c),
            steps: self.steps + 1,
        }
    }

    /// The state a search begins in: only the start is reached.
    pub open spec fn init(t: Terrain) -> Search {
        Search {
            nodes: Map::new(
                |p: Position| t.in_bounds(p),
                |p: Position|
                    if p == t.start {
                        Node::origin(p, t.goal)
                    } else {
                        Node::blank(p)
                    },
            ),
            closed: Set::empty(),
            steps: 0,
        }
    }
}

/// The way back from `p` along the records, written from its beginning to `p`.
pub open spec fn trace(nodes: Map<Position, Node>, p: Position, fuel: nat) -> Seq<Position>
    decreases fuel,
{
    if fuel == 0 {
        Seq::empty()
    } else {
        match nodes[p].comes_from {
            None => seq![p],
            Some(q) => trace(nodes, q, (fuel - 1) as nat).push(p),
        }
    }
}

/// The search from state `s` on has come to an end: every cell is expanded,
/// or the frontier is empty, or its best cell is the goal.
pub open spec fn is_settled(t: Terrain, s: Search) -> bool {
    s.steps >= t.cells() || !s.has_open(t) || s.best(t) == t.goal
}

/// The state in which the search from state `s` on ends: the best cell of the
/// frontier is expanded until that cell is the goal, or the frontier is empty.
pub open spec fn settle(t: Terrain, s: Search) -> Search
    decreases t.cells() - s.steps,
{
    if is_settled(t, s) {
        s
    } else {
        settle(t, s.expand(t, s.best(t)))
    }
}

/// The path that a search which ended in state `s` has found: the way that
/// the records hold to the goal, where the goal is the best cell of the
/// frontier; else none.
pub open spec fn path_of(t: Terrain, s: Search) -> Seq<Position> {
    if s.steps < t.cells() && s.has_open(t) && s.best(t) == t.goal {
        trace(s.nodes, t.goal, t.cells() as nat)
    } else {
        Seq::empty()
    }
}

/// The path that a search on `t` finds; empty where the goal cannot be reached.
pub open spec fn shortest_path(t: Terrain) -> Seq<Position> {
    path_of(t, settle(t, Search::init(t)))
}

/// The records that a search on `t` leaves.
pub open spec fn search_records(t: Terrain) -> Map<Position, Node> {
    settle(t, Search::init(t)).nodes
}

/// What is owed of a path found on `t`: it is empty just where the goal
/// cannot be reached; else it is a route, and no route costs less.
pub open spec fn is_shortest(t: Terrain, path: Seq<Position>) -> bool {
    &&& path.len() > 0 <==> t.reachable()
    &&& path.len() > 0 ==> t.is_route(path)
    &&& forall|r: Seq<Position>| #[trigger] t.is_route(r) ==> route_cost(path) <= route_cost(r)
}

/// Only one cell of the frontier goes before every other.
pub proof fn lemma_best_unique(t: Terrain, s: Search, p: Position)
    requires
        s.is_best(t, p),
    ensures
        s.best(t) == p,
        s.has_open(t),
{
    let b = s.best(t);
    assert(s.is_best(t, b));
    if b != p {
        assert(s.is_open(t, b));
        assert(s.is_open(t, p));
        assert(s.nodes[p].precedes(s.nodes[b]));
        assert(s.nodes[b].precedes(s.nodes[p]));
    }
}

/// Where the best cell of the frontier is the goal, the search has ended, and
/// its path is the way that the records hold to the goal.
pub proof fn lemma_settle_found(t: Terrain, s: Search)
    requires
        s.is_best(t, t.goal),
        s.steps < t.cells(),
    ensures
        settle(t, s) == s,
        path_of(t, s) == trace(s.nodes, t.goal, t.cells() as nat),
{
    lemma_best_unique(t, s, t.goal);
}

/// Where the best cell of the frontier is not the goal, the search goes on
/// from the state in which that cell is expanded.
pub proof fn lemma_settle_step(t: Terrain, s: Search, c: Position)
    requires
        s.is_best(t, c),
        c != t.goal,
        s.steps < t.cells(),
    ensures
        settle(t, s) == settle(t, s.expand(t, c)),
{
    lemma_best_unique(t, s, c);
}

/// With an empty frontier the search has ended without a path.
pub proof fn lemma_settle_exhausted(t: Terrain, s: Search)
    requires
        !s.has_open(t),
    ensures
        settle(t, s) == s,
        path_of(t, s) == Seq::<Position>::empty(),
{
}

/// From a state in order the search ends in a state in order, with a
/// shortest route, or, where there is none, with the empty path.
pub proof fn lemma_settle_is_shortest(t: Terrain, s: Search)
    requires
        inv(t, s),
    ensures
        inv(t, settle(t, s)),
        is_shortest(t, path_of(t, settle(t, s))),
    decreases t.cells() - s.steps,
{
    if !s.has_open(t) {
        lemma_exhausted(t, s);
    } else {
        lemma_best_exists(t, s);
        let c = s.best(t);
        lemma_room(t, s, c);
        if c == t.goal {
            lemma_found(t, s);
            assert(t.is_route(path_of(t, s)));
        } else {
            lemma_expand_keeps_inv(t, s, c);
            lemma_settle_is_shortest(t, s.expand(t, c));
        }
    }
}

/// The search finds a cheapest route from the start to the goal wherever one
/// exists, and the empty path where none does.
pub proof fn lemma_shortest_path(t: Terrain)
    requires
        t.wf(),
    ensures
        is_shortest(t, shortest_path(t)),
{
    lemma_init_inv(t);
    lemma_settle_is_shortest(t, Search::init(t));
}

/// What a search leaves in the record of cell `p` of the grid. A cell that
/// was not reached has no cost and no origin. A cell that was reached is
/// free, its estimate is its distance to the goal, and it comes from a
/// reached cell next to it, at that cell's cost and the cost of the step;
/// only the start comes from nowhere, at no cost.
pub proof fn lemma_search_records(t: Terrain, p: Position)
    requires
        t.wf(),
        t.in_bounds(p),
    ensures
        search_records(t).dom().contains(p),
        search_records(t)[p].pos == p,
        search_records(t)[p].wf(),
        search_records(t)[p].g_cost is None ==> search_records(t)[p] == Node::blank(p),
        search_records(t)[p].g_cost is Some ==> {
            &&& t.walkable(p)
            &&& search_records(t)[p].h_cost == Some(p.octile(t.goal) as i32)
        },
        search_records(t)[p].g_cost is Some ==> match search_records(t)[p].comes_from {
            None => p == t.start && search_records(t)[p].g_cost == Some(0i32),
            Some(q) => {
                &&& q.adjacent(p)
                &&& t.walkable(q)
                &&& search_records(t)[q].g_cost is Some
                &&& search_records(t)[p].g_cost.unwrap() == search_records(t)[q].g_cost.unwrap()
                    + q.step_cost(p)
            },
        },
{
    lemma_init_inv(t);
    lemma_settle_is_shortest(t, Search::init(t));
    lemma_records_in_order(t, settle(t, Search::init(t)), p);
}

} // verus!
