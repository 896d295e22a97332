use crate::consistency::{
    inv, is_chain, lemma_best_costs, lemma_expand_frontier, lemma_expand_keeps_inv, lemma_found,
    lemma_init_inv, lemma_mark, lemma_open_records, lemma_room, marked,
};
use crate::lists::{
    among_first, copy_of, lemma_among_first_all, lemma_among_first_next, lemma_list_push,
    lemma_list_remove,
};
use crate::matrix::{
    matrix_cells, matrix_from_vec, matrix_get, matrix_get_mut, matrix_shape, NodeMatrix,
};
use crate::node::Node;
use crate::position::Position;
use crate::search::{
    is_shortest, lemma_settle_exhausted, lemma_settle_found, lemma_settle_step,
    lemma_shortest_path, search_records, settle, shortest_path, trace, Search,
};
use crate::terrain::{
    lemma_column_order, lemma_index_in_table, lemma_octile_on_grid, BoardError, Terrain,
    MAX_CELLS,
};
use vstd::prelude::*;
use vstd::seq_lib::seq_to_set_is_finite;
use vstd::set::axiom_set_insert_len;

verus! {

/// A grid with blocked cells, a start and a goal, and what the last search
/// left: the record of each cell and the path it found.
#[derive(Debug)]
pub struct Board {
    width: usize,
    heigth: usize,
    nodes: NodeMatrix,
    obstacles: Vec<Position>,
    start_point: Position,
    end_point: Position,
    path: Vec<Position>,
}

/// A board as contracts see it.
pub struct BoardView {
    pub terrain: Terrain,
    /// The record of each cell of the grid.
    pub nodes: Map<Position, Node>,
    /// The path that the last search found.
    pub path: Seq<Position>,
}

impl BoardView {
    /// The board of `width` columns and `heigth` rows as it is made: nothing
    /// blocked, from the first cell to the last, nothing searched.
    pub open spec fn fresh(width: int, heigth: int) -> BoardView {
        BoardView {
            terrain: Terrain {
                width: width,
                heigth: heigth,
                obstacles: Set::empty(),
                start: Position { x: 0, y: 0 },
                goal: Position { x: (width - 1) as usize, y: (heigth - 1) as usize },
            },
            nodes: Map::new(
                |p: Position| p.inside(width, heigth),
                |p: Position| Node::blank(p),
            ),
            path: Seq::empty(),
        }
    }

    /// The same grid on terrain `t`, with nothing searched.
    pub open spec fn on(t: Terrain) -> BoardView {
        BoardView {
            terrain: t,
            nodes: Map::new(|p: Position| t.in_bounds(p), |p: Position| Node::blank(p)),
            path: Seq::empty(),
        }
    }

    /// The board after a search: its records are those that the search
    /// leaves, its path is the one that the search found.
    pub open spec fn searched(self) -> BoardView {
        BoardView {
            terrain: self.terrain,
            nodes: search_records(self.terrain),
            path: shortest_path(self.terrain),
        }
    }

    /// The board after what the last search left was cleared away.
    pub open spec fn cleared(self) -> BoardView {
        BoardView::on(self.terrain)
    }

    /// The same grid with `obstacles` as its blocked cells, and nothing searched.
    pub open spec fn with_obstacles(self, obstacles: Set<Position>) -> BoardView {
        BoardView::on(Terrain { obstacles: obstacles, ..self.terrain })
    }

    /// The same grid with `p` blocked if it was free, and free if it was
    /// blocked, and nothing searched.
    pub open spec fn toggled(self, p: Position) -> BoardView {
        self.with_obstacles(
            if self.terrain.obstacles.contains(p) {
                self.terrain.obstacles.remove(p)
            } else {
                self.terrain.obstacles.insert(p)
            },
        )
    }

    /// The same grid with the start in `p`, and nothing searched.
    pub open spec fn with_start(self, p: Position) -> BoardView {
        BoardView::on(Terrain { start: p, ..self.terrain })
    }

    /// The same grid with the goal in `p`, and nothing searched.
    pub open spec fn with_goal(self, p: Position) -> BoardView {
        BoardView::on(Terrain { goal: p, ..self.terrain })
    }

    /// Every cell of the grid has a record, and each record is in order.
    pub open spec fn wf(self) -> bool {
        &&& self.terrain.wf()
        &&& forall|p: Position| self.nodes.dom().contains(p) <==> self.terrain.in_bounds(p)
        &&& forall|p: Position|
            self.terrain.in_bounds(p) ==> (#[trigger] self.nodes[p]).pos == p && self.nodes[p].wf()
        &&& forall|p: Position| self.terrain.obstacles.contains(p) ==> self.terrain.in_bounds(p)
        &&& self.terrain.obstacles.finite()
    }
}

impl View for Board {
    type V = BoardView;

    /// The board as contracts see it: its terrain, the record that the table
    /// holds at the place of each cell, and the path.
    closed spec fn view(&self) -> BoardView {
        let t = self.terrain();
        BoardView {
            terrain: t,
            nodes: Map::new(
                |p: Position| t.in_bounds(p),
                |p: Position| matrix_cells(self.nodes)[t.index(p)],
            ),
            path: self.path@,
        }
    }
}

/// `open` lists the frontier of `s`, each cell once.
spec fn lists_frontier(t: Terrain, s: Search, open: Seq<Position>) -> bool {
    &&& open.no_duplicates()
    &&& forall|p: Position| open.contains(p) <==> s.is_open(t, p)
}

/// Takes the cell at place `k` out of the frontier `open` and puts in the
/// cells that were reached for the first time.
fn advance_frontier(open: &mut Vec<Position>, k: usize, candidates: &Vec<Position>)
    requires
        old(open)@.no_duplicates(),
        k < old(open)@.len(),
        candidates@.no_duplicates(),
        forall|q: Position| #[trigger] candidates@.contains(q) ==> !old(open)@.contains(q),
    ensures
        final(open)@.no_duplicates(),
        forall|q: Position|
            #![trigger final(open)@.contains(q)]
            final(open)@.contains(q) <==> (old(open)@.contains(q) && q != old(open)@[k as int])
                || candidates@.contains(q),
{
    proof {
        lemma_list_remove(open@, k as int);
    }
    open.remove(k);
    let ghost rest = open@;
    let mut i: usize = 0;
    while i < candidates.len()
        invariant
            i <= candidates@.len(),
            candidates@.no_duplicates(),
            forall|q: Position| #[trigger] candidates@.contains(q) ==> !rest.contains(q),
            open@.no_duplicates(),
            forall|q: Position|
                #![trigger open@.contains(q)]
                open@.contains(q) <==> rest.contains(q) || among_first(candidates@, i as int, q),
        decreases candidates@.len() - i,
    {
        let fresh = candidates[i];
        let ghost before = open@;
        proof {
            assert(candidates@.contains(fresh));
            assert(!among_first(candidates@, i as int, fresh));
            assert(!open@.contains(fresh));
            lemma_list_push(open@, fresh);
            lemma_among_first_next(candidates@, i as int);
        }
        open.push(fresh);
        proof {
            assert forall|q: Position|
                #![trigger open@.contains(q)]
                open@.contains(q) <==> rest.contains(q) || among_first(candidates@, i + 1, q) by {
                assert(open@.contains(q) <==> before.contains(q) || q == fresh);
                assert(among_first(candidates@, i + 1, q) <==> among_first(
                    candidates@,
                    i as int,
                    q,
                ) || q == fresh);
            }
        }
        i = i + 1;
    }
    proof {
        lemma_among_first_all(candidates@);
    }
}

impl Board {
    /// What a search on this board depends on.
    closed spec fn terrain(&self) -> Terrain {
        Terrain {
            width: self.width as int,
            heigth: self.heigth as int,
            obstacles: self.obstacles@.to_set(),
            start: self.start_point,
            goal: self.end_point,
        }
    }

    /// The table has the shape of the grid and no cell is listed twice as blocked.
    pub closed spec fn layout_ok(&self) -> bool {
        &&& matrix_shape(self.nodes) == (self.heigth as nat, self.width as nat)
        &&& matrix_cells(self.nodes).len() == self.width * self.heigth
        &&& self.obstacles@.no_duplicates()
    }

    /// The board is in order: see `BoardView::wf`.
    pub open spec fn wf(&self) -> bool {
        self@.wf() && self.layout_ok()
    }

    /// A board of `heigth` rows and `width` columns with no cell blocked, the
    /// start in the first cell and the goal in the last.
    pub fn new(heigth: usize, width: usize) -> (board: Board)
        requires
            0 < heigth,
            0 < width,
            heigth * width <= MAX_CELLS,
        ensures
            board.wf(),
            board@ == BoardView::fresh(width as int, heigth as int),
    {
        let mut nodes: Vec<Node> = Vec::new();
        let mut x: usize = 0;
        while x < width
            invariant
                0 < heigth,
                x <= width,
                heigth * width <= MAX_CELLS,
                nodes@.len() == x * heigth,
                forall|p: Position|
                    p.x < x && p.y < heigth ==> #[trigger] nodes@[p.y + p.x * heigth]
                        == Node::blank(p),
            decreases width - x,
        {
            let mut y: usize = 0;
            while y < heigth
                invariant
                    0 < heigth,
                    x < width,
                    y <= heigth,
                    heigth * width <= MAX_CELLS,
                    nodes@.len() == x * heigth + y,
                    forall|p: Position|
                        (p.x < x || (p.x == x && p.y < y)) && p.y < heigth ==> #[trigger] nodes@[p.y
                            + p.x * heigth] == Node::blank(p),
                decreases heigth - y,
            {
                let ghost before = nodes@;
                nodes.push(Node::new(None, Position::new(x, y), None, None));
                proof {
                    assert forall|p: Position|
                        (p.x < x || (p.x == x && p.y < y + 1)) && p.y < heigth implies
                        #[trigger] nodes@[p.y + p.x * heigth] == Node::blank(p) by {
                        if p.x == x && p.y == y {
                            assert(p == Position { x: x, y: y });
                        } else {
                            lemma_column_order(
                                heigth as int,
                                p.x as int,
                                p.y as int,
                                x as int,
                                y as int,
                            );
                            assert(nodes@[p.y + p.x * heigth] == before[p.y + p.x * heigth]);
                        }
                    }
                }
                y = y + 1;
            }
            assert((x + 1) * heigth == x * heigth + heigth) by (nonlinear_arith);
            x = x + 1;
        }
        assert(heigth * width == width * heigth) by (nonlinear_arith);
        let board = Board {
            nodes: matrix_from_vec(heigth, width, nodes),
            heigth,
            width,
            obstacles: Vec::new(),
            end_point: Position::new(width - 1, heigth - 1),
            start_point: Position::new(0, 0),
            path: Vec::new(),
        };
        proof {
            assert(board@.terrain.obstacles =~= Set::empty());
            seq_to_set_is_finite(board.obstacles@);
            assert(board@.nodes =~= BoardView::fresh(width as int, heigth as int).nodes);
            assert(board@.path =~= Seq::empty());
        }
        board
    }

    /// The number of columns.
    pub fn width(&self) -> (width: usize)
        ensures
            width == self@.terrain.width,
    {
        self.width
    }

    /// The number of rows.
    pub fn heigth(&self) -> (heigth: usize)
        ensures
            heigth == self@.terrain.heigth,
    {
        self.heigth
    }

    /// The cell a search starts from.
    pub fn start_point(&self) -> (start: Position)
        ensures
            start == self@.terrain.start,
    {
        self.start_point
    }

    /// The cell a search looks for.
    pub fn end_point(&self) -> (goal: Position)
        ensures
            goal == self@.terrain.goal,
    {
        self.end_point
    }

    /// Whether `p` is a cell of the grid that is not blocked.
    pub fn is_walkable(&self, p: Position) -> (free: bool)
        ensures
            free == self@.terrain.walkable(p),
    {
        p.x < self.width && p.y < self.heigth && p.find_in(&self.obstacles).is_none()
    }

    /// The record of cell `p`, if `p` is a cell of the grid.
    pub fn node_at(&self, p: Position) -> (node: Option<Node>)
        requires
            self.wf(),
        ensures
            node == if self@.terrain.in_bounds(p) {
                Some(self@.nodes[p])
            } else {
                None
            },
    {
        if p.x < self.width && p.y < self.heigth {
            proof {
                lemma_index_in_table(self@.terrain, p);
            }
            match matrix_get(&self.nodes, p.y, p.x) {
                Some(node) => Some(*node),
                None => None,
            }
        } else {
            None
        }
    }

    /// Writes `node` as the record of its cell.
    fn set_node(&mut self, node: Node)
        requires
            old(self).wf(),
            old(self)@.terrain.in_bounds(node.pos),
            node.wf(),
        ensures
            final(self).wf(),
            final(self)@.terrain == old(self)@.terrain,
            final(self)@.path == old(self)@.path,
            final(self)@.nodes == old(self)@.nodes.insert(node.pos, node),
    {
        let p = node.pos;
        proof {
            lemma_index_in_table(self@.terrain, p);
        }
        let ghost before = matrix_cells(self.nodes);
        let ghost t = self@.terrain;
        match matrix_get_mut(&mut self.nodes, p.y, p.x) {
            Some(slot) => {
                *slot = node;
            },
            None => {},
        }
        proof {
            assert(matrix_cells(self.nodes) == before.update(t.index(p), node));
            assert forall|q: Position| t.in_bounds(q) && q != p implies t.index(q) != t.index(
                p,
            ) by {
                assert(old(self)@.nodes[q].pos == q);
                assert(old(self)@.nodes[p].pos == p);
            }
            assert forall|q: Position| t.in_bounds(q) implies 0 <= t.index(q) < before.len() by {
                lemma_index_in_table(t, q);
            }
            assert(self@.nodes =~= old(self)@.nodes.insert(p, node));
        }
    }

    /// Forgets what the last search left: every record is that of a cell not
    /// reached, and there is no path.
    pub fn reset_path(&mut self)
        requires
            old(self).wf(),
        ensures
            final(self).wf(),
            final(self)@ == old(self)@.cleared(),
    {
        self.path = Vec::new();
        let mut x: usize = 0;
        while x < self.width
            invariant
                self.wf(),
                self@.terrain == old(self)@.terrain,
                self@.path == Seq::<Position>::empty(),
                x <= self.width,
                self.width == self@.terrain.width,
                self.heigth == self@.terrain.heigth,
                forall|p: Position|
                    p.x < x && p.y < self.heigth ==> #[trigger] self@.nodes[p] == Node::blank(p),
            decreases self.width - x,
        {
            let mut y: usize = 0;
            while y < self.heigth
                invariant
                    self.wf(),
                    self@.terrain == old(self)@.terrain,
                    self@.path == Seq::<Position>::empty(),
                    x < self.width,
                    y <= self.heigth,
                    self.width == self@.terrain.width,
                    self.heigth == self@.terrain.heigth,
                    forall|p: Position|
                        (p.x < x || (p.x == x && p.y < y)) && p.y < self.heigth
                            ==> #[trigger] self@.nodes[p] == Node::blank(p),
                decreases self.heigth - y,
            {
                let cell = Position::new(x, y);
                if let Some(mut node) = self.node_at(cell) {
                    node.reset();
                    self.set_node(node);
                }
                assert forall|p: Position| p.x == x && p.y == y implies p == cell by {}
                y = y + 1;
            }
            x = x + 1;
        }
        proof {
            assert(self@.nodes =~= old(self)@.cleared().nodes);
        }
    }

    /// The path that the last search found, from the start to the goal; empty
    /// where it found none or nothing was searched since the board changed.
    pub fn path(&self) -> (path: Vec<Position>)
        ensures
            path@ == self@.path,
    {
        copy_of(&self.path)
    }

    /// The blocked cells, each once, in no particular order.
    pub fn obstacles(&self) -> (list: Vec<Position>)
        requires
            self.wf(),
        ensures
            list@.no_duplicates(),
            forall|p: Position|
                #![trigger list@.contains(p)]
                list@.contains(p) <==> self@.terrain.obstacles.contains(p),
    {
        copy_of(&self.obstacles)
    }

    /// Puts `list`, which names no cell twice, in the place of the blocked
    /// cells and clears away what the last search left.
    fn replace_obstacles(&mut self, list: Vec<Position>)
        requires
            old(self).wf(),
            list@.no_duplicates(),
            forall|p: Position|
                list@.contains(p) ==> old(self)@.terrain.in_bounds(p) && p != old(
                    self,
                )@.terrain.start && p != old(self)@.terrain.goal,
        ensures
            final(self).wf(),
            final(self)@ == old(self)@.with_obstacles(list@.to_set()),
    {
        self.obstacles = list;
        proof {
            assert(self@.terrain.obstacles =~= list@.to_set());
            seq_to_set_is_finite(list@);
            assert(self@.nodes =~= old(self)@.nodes);
            assert(forall|p: Position|
                self@.terrain.in_bounds(p) == old(self)@.terrain.in_bounds(p));
            assert(!list@.contains(self@.terrain.start));
            assert(!list@.contains(self@.terrain.goal));
        }
        self.reset_path();
    }

    /// Unblocks every cell, and clears away what the last search left.
    pub fn clean_obstacles(&mut self)
        requires
            old(self).wf(),
        ensures
            final(self).wf(),
            final(self)@ == old(self)@.with_obstacles(Set::empty()),
    {
        self.replace_obstacles(Vec::new());
        proof {
            assert(Seq::<Position>::empty().to_set() =~= Set::<Position>::empty());
        }
    }

    /// Why `p` cannot be blocked, if it cannot.
    fn refusal(&self, p: Position) -> (refused: Option<BoardError>)
        ensures
            refused == self@.terrain.refusal(p),
    {
        if !(p.x < self.width && p.y < self.heigth) {
            Some(BoardError::OutOfBounds)
        } else if p == self.start_point || p == self.end_point {
            Some(BoardError::InvalidEndpoint)
        } else {
            None
        }
    }

    /// Blocks cell `p`, and clears away what the last search left. A cell
    /// outside the grid is refused, and so are the start and the goal; the
    /// board then stays as it is.
    pub fn add_obstacle(&mut self, p: Position) -> (done: Result<(), BoardError>)
        requires
            old(self).wf(),
        ensures
            final(self).wf(),
            match old(self)@.terrain.refusal(p) {
                Some(error) => done == Err::<(), BoardError>(error) && final(self)@ == old(self)@,
                None => done is Ok && final(self)@ == old(self)@.with_obstacles(
                    old(self)@.terrain.obstacles.insert(p),
                ),
            },
    {
        if let Some(error) = self.refusal(p) {
            return Err(error);
        }
        let mut list = copy_of(&self.obstacles);
        if p.find_in(&list).is_none() {
            proof {
                lemma_list_push(list@, p);
            }
            list.push(p);
        }
        proof {
            assert(list@.to_set() =~= old(
                self,
            )@.terrain.obstacles.insert(p));
        }
        self.replace_obstacles(list);
        Ok(())
    }

    /// Blocks the cell of `node` if it is free and unblocks it if it is
    /// blocked, and clears away what the last search left. A cell outside the
    /// grid is refused, and so are the start and the goal; the board then
    /// stays as it is.
    pub fn switch_obstacle(&mut self, node: &Node) -> (done: Result<(), BoardError>)
        requires
            old(self).wf(),
        ensures
            final(self).wf(),
            match old(self)@.terrain.refusal(node.pos) {
                Some(error) => done == Err::<(), BoardError>(error) && final(self)@ == old(self)@,
                None => done is Ok && final(self)@ == old(self)@.toggled(node.pos),
            },
    {
        let p = node.pos;
        if let Some(error) = self.refusal(p) {
            return Err(error);
        }
        let mut list = copy_of(&self.obstacles);
        match p.find_in(&list) {
            Some(i) => {
                proof {
                    lemma_list_remove(list@, i as int);
                }
                list.remove(i);
                proof {
                    assert(list@.to_set() =~= old(
                        self,
                    )@.terrain.obstacles.remove(p));
                }
            },
            None => {
                proof {
                    lemma_list_push(list@, p);
                }
                list.push(p);
                proof {
                    assert(list@.to_set() =~= old(
                        self,
                    )@.terrain.obstacles.insert(p));
                }
            },
        }
        self.replace_obstacles(list);
        Ok(())
    }

    /// The place of cell `p` in the table.
    fn index_of(&self, p: Position) -> (i: usize)
        requires
            self.wf(),
            self@.terrain.in_bounds(p),
        ensures
            i == self@.terrain.index(p),
            i < self@.terrain.cells(),
    {
        proof {
            lemma_index_in_table(self@.terrain, p);
            assert(0 <= p.x * self.heigth) by (nonlinear_arith)
                requires
                    0 <= p.x,
                    0 <= self.heigth,
            ;
        }
        p.y + p.x * self.heigth
    }

    /// The place in `open` of the cell of the frontier that goes before every other.
    fn pick_best(&self, open: &Vec<Position>, Ghost(s): Ghost<Search>) -> (k: usize)
        requires
            self.wf(),
            s.nodes == self@.nodes,
            inv(self@.terrain, s),
            lists_frontier(self@.terrain, s, open@),
            open@.len() > 0,
        ensures
            k < open@.len(),
            s.is_best(self@.terrain, open@[k as int]),
    {
        let ghost t = self@.terrain;
        proof {
            assert forall|i: int| 0 <= i < open@.len() implies {
                &&& s.is_open(t, #[trigger] open@[i])
                &&& s.nodes[open@[i]].pos == open@[i]
                &&& s.nodes[open@[i]].f_cost is Some
                &&& s.nodes[open@[i]].h_cost is Some
            } by {
                assert(open@.contains(open@[i]));
                lemma_open_records(t, s, open@[i]);
            }
        }
        let mut k: usize = 0;
        let mut best: Node = self.node_at(open[0]).unwrap();
        let mut i: usize = 1;
        while i < open.len()
            invariant
                self.wf(),
                s.nodes == self@.nodes,
                t == self@.terrain,
                open@.no_duplicates(),
                k < i <= open@.len(),
                best == s.nodes[open@[k as int]],
                forall|j: int|
                    0 <= j < open@.len() ==> {
                        &&& s.is_open(t, #[trigger] open@[j])
                        &&& s.nodes[open@[j]].pos == open@[j]
                        &&& s.nodes[open@[j]].f_cost is Some
                        &&& s.nodes[open@[j]].h_cost is Some
                    },
                forall|j: int| 0 <= j < i && j != k ==> best.precedes(s.nodes[#[trigger] open@[j]]),
            decreases open@.len() - i,
        {
            let candidate: Node = self.node_at(open[i]).unwrap();
            if candidate.goes_before(&best) {
                k = i;
                best = candidate;
            }
            i = i + 1;
        }
        proof {
            let chosen = open@[k as int];
            assert forall|q: Position| #[trigger] s.is_open(t, q) && q != chosen implies
                s.nodes[chosen].precedes(s.nodes[q]) by {
                assert(open@.contains(q));
                let j = choose|j: int| 0 <= j < open@.len() && open@[j] == q;
                assert(best.precedes(s.nodes[open@[j]]));
            }
        }
        k
    }

    /// Expands the cell `position`, whose record is `node`: offers each free
    /// neighbour that is not yet expanded the way through it, at the cost of
    /// the step, and returns the neighbours that were reached for the first time.
    fn get_candidates(
        &mut self,
        position: &Position,
        closed: &Vec<bool>,
        node: &Node,
        Ghost(s): Ghost<Search>,
    ) -> (candidates: Vec<Position>)
        requires
            old(self).wf(),
            s.nodes == old(self)@.nodes,
            s.closed == marked(old(self)@.terrain, closed@),
            closed@.len() == old(self)@.terrain.cells(),
            inv(old(self)@.terrain, s),
            s.is_best(old(self)@.terrain, *position),
            s.steps < old(self)@.terrain.cells(),
            *node == s.nodes[*position],
        ensures
            final(self).wf(),
            final(self)@.terrain == old(self)@.terrain,
            final(self)@.path == old(self)@.path,
            final(self)@.nodes == s.expand(old(self)@.terrain, *position).nodes,
            candidates@.no_duplicates(),
            forall|q: Position|
                #![trigger candidates@.contains(q)]
                candidates@.contains(q) <==> s.relaxes(old(self)@.terrain, *position, q)
                    && !s.discovered(q),
    {
        let ghost t = self@.terrain;
        let c = *position;
        proof {
            lemma_best_costs(t, s, c);
        }
        let g_cost: i32 = node.g_cost.unwrap();
        let around = c.neighbors(self.width, self.heigth);
        let mut candidates: Vec<Position> = Vec::new();
        let mut j: usize = 0;
        while j < around.len()
            invariant
                self.wf(),
                self@.terrain == t,
                self@.path == old(self)@.path,
                t.wf(),
                s.closed == marked(t, closed@),
                closed@.len() == t.cells(),
                s.steps < t.cells(),
                0 <= g_cost <= 14 * s.steps,
                g_cost == s.g(c),
                self.width == t.width,
                self.heigth == t.heigth,
                self.end_point == t.goal,
                j <= around@.len(),
                around@.no_duplicates(),
                forall|q: Position| around@.contains(q) <==> c.adjacent(q) && t.in_bounds(q),
                forall|q: Position|
                    t.in_bounds(q) ==> {
                        &&& (#[trigger] s.nodes[q]).wf()
                        &&& s.nodes[q].pos == q
                        &&& 0 <= s.nodes[q].estimate(t.goal) <= 14 * t.cells()
                    },
                forall|q: Position|
                    t.in_bounds(q) ==> #[trigger] self@.nodes[q] == if among_first(
                        around@,
                        j as int,
                        q,
                    ) && s.relaxes(t, c, q) {
                        s.nodes[q].relaxed(c, s.g(c) + c.step_cost(q), t.goal)
                    } else {
                        s.nodes[q]
                    },
                candidates@.no_duplicates(),
                forall|q: Position|
                    #![trigger candidates@.contains(q)]
                    candidates@.contains(q) <==> among_first(around@, j as int, q) && s.relaxes(
                        t,
                        c,
                        q,
                    ) && !s.discovered(q),
            decreases around@.len() - j,
        {
            let n = around[j];
            let ghost before = self@.nodes;
            let ghost listed = candidates@;
            proof {
                assert(around@.contains(n));
                assert(!among_first(around@, j as int, n));
                assert(self@.nodes[n] == s.nodes[n]);
            }
            let mut record: Node = self.node_at(n).unwrap();
            if record.walkable(&self.obstacles) {
                let place = self.index_of(n);
                if !closed[place] {
                    let is_new: bool = record.g_cost.is_none();
                    let updated: bool = record.relax(c, g_cost + c.cost_to(n), self.end_point);
                    if updated {
                        self.set_node(record);
                        if is_new {
                            proof {
                                assert(!listed.contains(n));
                                lemma_list_push(listed, n);
                            }
                            candidates.push(n);
                        }
                    }
                }
            }
            proof {
                lemma_among_first_next(around@, j as int);
                assert forall|q: Position| t.in_bounds(q) implies #[trigger] self@.nodes[q]
                    == if among_first(around@, j + 1, q) && s.relaxes(t, c, q) {
                    s.nodes[q].relaxed(c, s.g(c) + c.step_cost(q), t.goal)
                } else {
                    s.nodes[q]
                } by {
                    if q != n {
                        assert(self@.nodes[q] == before[q]);
                    }
                }
                assert forall|q: Position|
                    #![trigger candidates@.contains(q)]
                    candidates@.contains(q) <==> among_first(around@, j + 1, q) && s.relaxes(
                        t,
                        c,
                        q,
                    ) && !s.discovered(q) by {
                    if q != n {
                        assert(candidates@.contains(q) <==> listed.contains(q));
                    }
                }
            }
            j = j + 1;
        }
        proof {
            lemma_among_first_all(around@);
            assert forall|q: Position|
                #![trigger candidates@.contains(q)]
                candidates@.contains(q) <==> s.relaxes(t, c, q) && !s.discovered(q) by {
                assert(among_first(around@, around@.len() as int, q) <==> around@.contains(q));
            }
            assert(self@.nodes =~= s.expand(t, c).nodes) by {
                assert forall|q: Position| t.in_bounds(q) implies self@.nodes[q] == s.expand(
                    t,
                    c,
                ).nodes[q] by {
                    assert(among_first(around@, around@.len() as int, q) <==> around@.contains(q));
                }
            }
        }
        candidates
    }

    /// Writes down the way that the records hold from the start to the goal.
    fn add_path(&mut self, Ghost(way): Ghost<Seq<Position>>)
        requires
            old(self).wf(),
            is_chain(old(self)@.nodes, way),
            way.last() == old(self)@.terrain.goal,
            forall|i: int| 0 <= i < way.len() ==> old(self)@.terrain.in_bounds(#[trigger] way[i]),
        ensures
            final(self).wf(),
            final(self)@.terrain == old(self)@.terrain,
            final(self)@.nodes == old(self)@.nodes,
            final(self)@.path == way,
    {
        let mut backwards: Vec<Position> = Vec::new();
        let mut current: Position = self.end_point;
        let mut node: Node = self.node_at(current).unwrap();
        let ghost mut j: int = way.len() - 1;
        while node.comes_from.is_some()
            invariant
                self.wf(),
                *self == *old(self),
                is_chain(self@.nodes, way),
                forall|i: int| 0 <= i < way.len() ==> self@.terrain.in_bounds(#[trigger] way[i]),
                0 <= j < way.len(),
                current == way[j],
                node == self@.nodes[current],
                backwards@.len() == way.len() - 1 - j,
                forall|i: int|
                    0 <= i < backwards@.len() ==> #[trigger] backwards@[i] == way[way.len() - 1
                        - i],
            decreases j,
        {
            backwards.push(current);
            current = node.comes_from.unwrap();
            proof {
                assert(self@.nodes[way[j]].comes_from == Some(way[j - 1]));
                j = j - 1;
            }
            node = self.node_at(current).unwrap();
        }
        backwards.push(current);
        proof {
            assert(j == 0) by {
                if j > 0 {
                    assert(self@.nodes[way[j]].comes_from == Some(way[j - 1]));
                }
            }
        }
        let mut path: Vec<Position> = Vec::new();
        let mut i: usize = backwards.len();
        while i > 0
            invariant
                i <= backwards@.len(),
                backwards@.len() == way.len(),
                path@.len() == backwards@.len() - i,
                forall|k: int|
                    0 <= k < backwards@.len() ==> #[trigger] backwards@[k] == way[way.len() - 1
                        - k],
                forall|k: int| 0 <= k < path@.len() ==> #[trigger] path@[k] == way[k],
            decreases i,
        {
            i = i - 1;
            path.push(backwards[i]);
        }
        self.path = path;
        proof {
            assert(self@.path =~= way);
            assert(self@.nodes =~= old(self)@.nodes);
        }
    }

    /// Searches the cheapest way from the start to the goal over free cells,
    /// by steps to touching cells, and returns it, from the start to the goal;
    /// the path is empty where there is no such way. The records of the board
    /// hold what the search found; what an earlier search left is cleared away first.
    pub fn a_start_find(&mut self) -> (route: Vec<Position>)
        requires
            old(self).wf(),
        ensures
            final(self).wf(),
            final(self)@ == old(self)@.searched(),
            route@ == shortest_path(old(self)@.terrain),
            is_shortest(old(self)@.terrain, route@),
    {
        let ghost t = self@.terrain;
        self.reset_path();
        let start: Position = self.start_point;
        let goal: Position = self.end_point;
        proof {
            lemma_octile_on_grid(t, start, goal);
        }
        let h_cost: i32 = start.distance_to_other_position(goal);
        self.set_node(Node::new(None, start, Some(0), Some(h_cost)));
        let cells: usize = self.width * self.heigth;
        let mut closed: Vec<bool> = Vec::new();
        while closed.len() < cells
            invariant
                closed@.len() <= cells,
                forall|i: int| 0 <= i < closed@.len() ==> !closed@[i],
            decreases cells - closed@.len(),
        {
            closed.push(false);
        }
        let mut open: Vec<Position> = Vec::new();
        open.push(start);
        let ghost mut s = Search::init(t);
        proof {
            lemma_init_inv(t);
            assert(self@.nodes =~= s.nodes);
            assert(marked(t, closed@) =~= s.closed) by {
                assert forall|p: Position| t.in_bounds(p) implies !closed@[t.index(p)] by {
                    lemma_index_in_table(t, p);
                }
            }
            assert forall|p: Position| open@.contains(p) <==> s.is_open(t, p) by {
                if p == start {
                    assert(open@[0] == p);
                }
            }
        }
        while open.len() > 0
            invariant
                self.wf(),
                self@.terrain == t,
                self@.path == Seq::<Position>::empty(),
                self.end_point == t.goal,
                self.width == t.width,
                self.heigth == t.heigth,
                s.nodes == self@.nodes,
                s.closed == marked(t, closed@),
                closed@.len() == t.cells(),
                goal == t.goal,
                t == old(self)@.terrain,
                inv(t, s),
                lists_frontier(t, s, open@),
                settle(t, s) == settle(t, Search::init(t)),
            decreases t.cells() - s.steps,
        {
            let k = self.pick_best(&open, Ghost(s));
            let current: Position = open[k];
            proof {
                lemma_room(t, s, current);
            }
            if current == goal {
                proof {
                    lemma_settle_found(t, s);
                    lemma_found(t, s);
                    lemma_shortest_path(t);
                }
                let ghost way = trace(s.nodes, t.goal, t.cells() as nat);
                self.add_path(Ghost(way));
                return self.path();
            }
            let node: Node = self.node_at(current).unwrap();
            let candidates = self.get_candidates(&current, &closed, &node, Ghost(s));
            let place = self.index_of(current);
            proof {
                lemma_settle_step(t, s, current);
                lemma_expand_frontier(t, s, current);
                lemma_expand_keeps_inv(t, s, current);
                lemma_mark(t, closed@, current);
            }
            advance_frontier(&mut open, k, &candidates);
            closed.set(place, true);
            proof {
                s = s.expand(t, current);
            }
        }
        proof {
            assert(!s.has_open(t)) by {
                if s.has_open(t) {
                    let p = choose|p: Position| s.is_open(t, p);
                    assert(open@.contains(p));
                }
            }
            lemma_settle_exhausted(t, s);
            lemma_shortest_path(t);
        }
        Vec::new()
    }

    /// Makes the cells of `obstacles` the blocked cells, and clears away what
    /// the last search left. The list is refused as a whole where it names a
    /// cell outside the grid, the start or the goal; the board then stays as
    /// it is.
    pub fn set_obstacles(&mut self, obstacles: Vec<Position>) -> (done: Result<(), BoardError>)
        requires
            old(self).wf(),
        ensures
            final(self).wf(),
            match old(self)@.terrain.refusal_of_all(obstacles@) {
                Some(error) => done == Err::<(), BoardError>(error) && final(self)@ == old(self)@,
                None => done is Ok && final(self)@ == old(self)@.with_obstacles(
                    obstacles@.to_set(),
                ),
            },
    {
        let ghost t = self@.terrain;
        let mut i: usize = 0;
        while i < obstacles.len()
            invariant
                self.wf(),
                *self == *old(self),
                t == self@.terrain,
                i <= obstacles@.len(),
                forall|k: int| 0 <= k < i ==> t.in_bounds(#[trigger] obstacles@[k]),
            decreases obstacles@.len() - i,
        {
            let p = obstacles[i];
            if !(p.x < self.width && p.y < self.heigth) {
                return Err(BoardError::OutOfBounds);
            }
            i = i + 1;
        }
        i = 0;
        while i < obstacles.len()
            invariant
                self.wf(),
                *self == *old(self),
                t == self@.terrain,
                i <= obstacles@.len(),
                forall|k: int| 0 <= k < obstacles@.len() ==> t.in_bounds(#[trigger] obstacles@[k]),
                forall|k: int|
                    0 <= k < i ==> !(#[trigger] obstacles@[k] == t.start || obstacles@[k]
                        == t.goal),
            decreases obstacles@.len() - i,
        {
            let p = obstacles[i];
            if p == self.start_point || p == self.end_point {
                return Err(BoardError::InvalidEndpoint);
            }
            i = i + 1;
        }
        let mut list: Vec<Position> = Vec::new();
        i = 0;
        while i < obstacles.len()
            invariant
                i <= obstacles@.len(),
                list@.no_duplicates(),
                forall|q: Position|
                    #![trigger list@.contains(q)]
                    list@.contains(q) <==> among_first(obstacles@, i as int, q),
            decreases obstacles@.len() - i,
        {
            let p = obstacles[i];
            proof {
                lemma_among_first_next(obstacles@, i as int);
            }
            let ghost before = list@;
            if p.find_in(&list).is_none() {
                proof {
                    lemma_list_push(list@, p);
                }
                list.push(p);
            }
            proof {
                assert forall|q: Position|
                    #![trigger list@.contains(q)]
                    list@.contains(q) <==> among_first(obstacles@, i + 1, q) by {
                    assert(list@.contains(q) <==> before.contains(q) || q == p);
                    assert(among_first(obstacles@, i + 1, q) <==> among_first(
                        obstacles@,
                        i as int,
                        q,
                    ) || q == p);
                }
            }
            i = i + 1;
        }
        proof {
            lemma_among_first_all(obstacles@);
            assert(list@.to_set() =~= obstacles@.to_set());
            assert forall|q: Position| list@.contains(q) implies t.in_bounds(q) && q != t.start
                && q != t.goal by {
                let k = choose|k: int| 0 <= k < obstacles@.len() && obstacles@[k] == q;
                assert(t.in_bounds(obstacles@[k]));
                assert(!(obstacles@[k] == t.start || obstacles@[k] == t.goal));
            }
        }
        self.replace_obstacles(list);
        Ok(())
    }

    /// Draws `amount` cells at random and blocks each, and clears away what
    /// the last search left. A draw that falls on the start, on the goal or on
    /// a cell already blocked blocks nothing more.
    pub fn generate_obstacles(&mut self, amount: i32)
        requires
            old(self).wf(),
        ensures
            final(self).wf(),
            final(self)@ == old(self)@.with_obstacles(final(self)@.terrain.obstacles),
            old(self)@.terrain.obstacles.subset_of(final(self)@.terrain.obstacles),
            forall|p: Position|
                #![trigger final(self)@.terrain.obstacles.contains(p)]
                final(self)@.terrain.obstacles.contains(p) ==> old(
                    self,
                )@.terrain.obstacles.contains(p) || old(self)@.terrain.refusal(p) is None,
            final(self)@.terrain.obstacles.len() <= old(self)@.terrain.obstacles.len() + if amount
                > 0 {
                amount as int
            } else {
                0
            },
            amount <= 0 ==> final(self)@.terrain.obstacles == old(self)@.terrain.obstacles,
    {
        self.reset_path();
        let mut i: i32 = 0;
        while i < amount
            invariant
                self.wf(),
                0 <= i,
                self@ == old(self)@.with_obstacles(self@.terrain.obstacles),
                old(self)@.terrain.obstacles.subset_of(self@.terrain.obstacles),
                forall|p: Position|
                    #![trigger self@.terrain.obstacles.contains(p)]
                    self@.terrain.obstacles.contains(p) ==> old(self)@.terrain.obstacles.contains(
                        p,
                    ) || old(self)@.terrain.refusal(p) is None,
                self@.terrain.obstacles.len() <= old(self)@.terrain.obstacles.len() + i,
                amount > 0 ==> i <= amount,
                amount <= 0 ==> i == 0 && self@.terrain.obstacles == old(self)@.terrain.obstacles,
            decreases amount - i,
        {
            let p = Position::generate_random_position(self.heigth, self.width);
            proof {
                axiom_set_insert_len(self@.terrain.obstacles, p);
            }
            match self.add_obstacle(p) {
                Ok(()) => {},
                Err(_) => {},
            }
            i = i + 1;
        }
    }

    /// Moves the start to `p`, and clears away what the last search left. A
    /// cell outside the grid is refused, and so is a blocked cell; the board
    /// then stays as it is.
    pub fn set_start_point(&mut self, p: Position) -> (done: Result<(), BoardError>)
        requires
            old(self).wf(),
        ensures
            final(self).wf(),
            match old(self)@.terrain.endpoint_refusal(p) {
                Some(error) => done == Err::<(), BoardError>(error) && final(self)@ == old(self)@,
                None => done is Ok && final(self)@ == old(self)@.with_start(p),
            },
    {
        if !(p.x < self.width && p.y < self.heigth) {
            return Err(BoardError::OutOfBounds);
        }
        if p.find_in(&self.obstacles).is_some() {
            return Err(BoardError::InvalidEndpoint);
        }
        self.start_point = p;
        proof {
            assert(self@.nodes =~= old(self)@.nodes);
            assert(self@.terrain.obstacles =~= old(self)@.terrain.obstacles);
            assert(forall|q: Position|
                self@.terrain.in_bounds(q) == old(self)@.terrain.in_bounds(q));
        }
        self.reset_path();
        Ok(())
    }

    /// Moves the goal to `p`, and clears away what the last search left. A
    /// cell outside the grid is refused, and so is a blocked cell; the board
    /// then stays as it is.
    pub fn set_end_point(&mut self, p: Position) -> (done: Result<(), BoardError>)
        requires
            old(self).wf(),
        ensures
            final(self).wf(),
            match old(self)@.terrain.endpoint_refusal(p) {
                Some(error) => done == Err::<(), BoardError>(error) && final(self)@ == old(self)@,
                None => done is Ok && final(self)@ == old(self)@.with_goal(p),
            },
    {
        if !(p.x < self.width && p.y < self.heigth) {
            return Err(BoardError::OutOfBounds);
        }
        if p.find_in(&self.obstacles).is_some() {
            return Err(BoardError::InvalidEndpoint);
        }
        self.end_point = p;
        proof {
            assert(self@.nodes =~= old(self)@.nodes);
            assert(self@.terrain.obstacles =~= old(self)@.terrain.obstacles);
            assert(forall|q: Position|
                self@.terrain.in_bounds(q) == old(self)@.terrain.in_bounds(q));
        }
        self.reset_path();
        Ok(())
    }
}

} // verus!
