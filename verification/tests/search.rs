use pathfinder::board::Board;
use pathfinder::position::Position;

fn cost_of(route: &Vec<Position>) -> i32 {
    let mut cost = 0;
    for i in 1..route.len() {
        cost += route[i - 1].cost_to(route[i]);
    }
    cost
}

fn is_route_on(board: &Board, route: &Vec<Position>) -> bool {
    if route.is_empty() || route[0] != board.start_point() {
        return false;
    }
    if route[route.len() - 1] != board.end_point() {
        return false;
    }
    for i in 0..route.len() {
        if !board.is_walkable(route[i]) {
            return false;
        }
        if i > 0 && !route[i - 1].neighbors(board.width(), board.heigth()).contains(&route[i]) {
            return false;
        }
    }
    true
}

/// The least cost of a way from the start to the goal, found by trying every
/// step again and again until no cost falls.
fn least_cost(board: &Board) -> Option<i32> {
    let width = board.width();
    let heigth = board.heigth();
    let mut best: Vec<Option<i32>> = vec![None; width * heigth];
    let start = board.start_point();
    best[start.x * heigth + start.y] = Some(0);
    let mut changed = true;
    while changed {
        changed = false;
        for x in 0..width {
            for y in 0..heigth {
                let here = Position::new(x, y);
                if let Some(cost) = best[x * heigth + y] {
                    for next in here.neighbors(width, heigth) {
                        if !board.is_walkable(next) {
                            continue;
                        }
                        let offered = cost + here.cost_to(next);
                        let slot = &mut best[next.x * heigth + next.y];
                        if slot.map_or(true, |known| offered < known) {
                            *slot = Some(offered);
                            changed = true;
                        }
                    }
                }
            }
        }
    }
    let goal = board.end_point();
    best[goal.x * heigth + goal.y]
}

fn board_with(heigth: usize, width: usize, obstacles: &[(usize, usize)]) -> Board {
    let mut board = Board::new(heigth, width);
    let list: Vec<Position> = obstacles.iter().map(|&(x, y)| Position::new(x, y)).collect();
    assert_eq!(board.set_obstacles(list), Ok(()));
    board
}

#[test]
fn open_board_is_crossed_on_the_diagonal() {
    let mut board = Board::new(5, 5);
    let route = board.a_start_find();
    let expected: Vec<Position> = (0..5usize).map(|i| Position::new(i, i)).collect();
    assert_eq!(route, expected);
    assert_eq!(cost_of(&route), 56);
    assert_eq!(board.path(), expected);
    assert_eq!(board.node_at(Position::new(4, 4)).unwrap().g_cost, Some(56));
}

#[test]
fn blocked_column_cannot_be_passed() {
    let mut board = board_with(5, 5, &[(2, 0), (2, 1), (2, 2), (2, 3), (2, 4)]);
    assert!(board.a_start_find().is_empty());
    assert!(board.path().is_empty());
    assert_eq!(least_cost(&board), None);
}

#[test]
fn column_with_a_gap_is_passed_through_the_gap() {
    let mut board = board_with(5, 5, &[(2, 1), (2, 2), (2, 3), (2, 4)]);
    let route = board.a_start_find();
    assert!(is_route_on(&board, &route));
    assert!(route.contains(&Position::new(2, 0)));
    assert!(cost_of(&route) > 56);
    assert_eq!(cost_of(&route), 68);
    assert_eq!(Some(cost_of(&route)), least_cost(&board));
}

#[test]
fn start_on_the_goal_gives_the_single_cell() {
    let mut board = Board::new(5, 5);
    assert_eq!(board.set_start_point(Position::new(2, 2)), Ok(()));
    assert_eq!(board.set_end_point(Position::new(2, 2)), Ok(()));
    let route = board.a_start_find();
    assert_eq!(route, vec![Position::new(2, 2)]);
    assert_eq!(cost_of(&route), 0);
    assert_eq!(board.path(), route);
}

#[test]
fn board_of_one_cell_is_its_own_path() {
    let mut board = Board::new(1, 1);
    assert_eq!(board.a_start_find(), vec![Position::new(0, 0)]);
}

#[test]
fn blocked_row_cannot_be_passed() {
    let mut board = board_with(4, 3, &[(0, 2), (1, 2), (2, 2)]);
    assert!(board.a_start_find().is_empty());
}

#[test]
fn enclosed_goal_cannot_be_reached() {
    let mut board = board_with(5, 5, &[(3, 3), (3, 4), (4, 3)]);
    assert!(board.a_start_find().is_empty());
    assert_eq!(board.node_at(Position::new(4, 4)).unwrap().g_cost, None);
    assert_eq!(board.node_at(Position::new(0, 4)).unwrap().g_cost, Some(40));
}

#[test]
fn enclosed_start_cannot_leave() {
    let mut board = board_with(5, 5, &[(1, 0), (0, 1), (1, 1)]);
    assert!(board.a_start_find().is_empty());
    assert_eq!(board.node_at(Position::new(0, 0)).unwrap().g_cost, Some(0));
    assert_eq!(board.node_at(Position::new(2, 2)).unwrap().g_cost, None);
}

#[test]
fn straight_ways_cost_the_distance() {
    let pairs = [
        ((0usize, 0usize), (6usize, 0usize)),
        ((0, 3), (0, 0)),
        ((1, 1), (5, 5)),
        ((6, 0), (2, 4)),
        ((3, 6), (3, 1)),
        ((0, 0), (6, 2)),
        ((5, 6), (1, 0)),
    ];
    for (from, to) in pairs {
        let mut board = Board::new(7, 7);
        let start = Position::new(from.0, from.1);
        let goal = Position::new(to.0, to.1);
        assert_eq!(board.set_start_point(start), Ok(()));
        assert_eq!(board.set_end_point(goal), Ok(()));
        let route = board.a_start_find();
        assert!(is_route_on(&board, &route));
        assert_eq!(cost_of(&route), start.distance_to_other_position(goal));
    }
}

#[test]
fn row_is_walked_cell_by_cell() {
    let mut board = Board::new(1, 4);
    let expected: Vec<Position> = (0..4usize).map(|x| Position::new(x, 0)).collect();
    assert_eq!(board.a_start_find(), expected);
}

#[test]
fn board_that_is_not_square_is_searched() {
    let mut board = Board::new(2, 6);
    let route = board.a_start_find();
    assert!(is_route_on(&board, &route));
    assert_eq!(cost_of(&route), 54);
    assert_eq!(board.node_at(Position::new(5, 1)).unwrap().pos, Position::new(5, 1));
    assert_eq!(board.node_at(Position::new(5, 1)).unwrap().g_cost, Some(54));
    assert_eq!(board.node_at(Position::new(1, 1)).unwrap().g_cost, Some(14));
    assert_eq!(board.node_at(Position::new(1, 0)).unwrap().g_cost, Some(10));
    assert_eq!(board.node_at(Position::new(0, 1)).unwrap().g_cost, Some(10));
}

#[test]
fn ties_are_broken_the_same_way_every_time() {
    let mut board = board_with(3, 3, &[(1, 1)]);
    let expected = vec![
        Position::new(0, 0),
        Position::new(1, 0),
        Position::new(2, 1),
        Position::new(2, 2),
    ];
    assert_eq!(board.a_start_find(), expected);
    assert_eq!(board.a_start_find(), expected);
    let mut other = board_with(3, 3, &[(1, 1)]);
    assert_eq!(other.a_start_find(), expected);
}

#[test]
fn repeated_search_gives_the_same_path() {
    let mut board = board_with(6, 6, &[(1, 1), (2, 1), (3, 1), (3, 2), (3, 3), (1, 4), (4, 4)]);
    let first = board.a_start_find();
    assert!(!first.is_empty());
    for _ in 0..5 {
        assert_eq!(board.a_start_find(), first);
        assert_eq!(board.path(), first);
    }
    board.reset_path();
    board.reset_path();
    assert_eq!(board.a_start_find(), first);
}

#[test]
fn search_leaves_the_board_as_it_was() {
    let mut board = board_with(4, 5, &[(1, 1), (3, 2)]);
    assert_eq!(board.set_start_point(Position::new(0, 3)), Ok(()));
    board.a_start_find();
    assert_eq!(board.width(), 5);
    assert_eq!(board.heigth(), 4);
    assert_eq!(board.start_point(), Position::new(0, 3));
    assert_eq!(board.end_point(), Position::new(4, 3));
    assert_eq!(board.obstacles(), vec![Position::new(1, 1), Position::new(3, 2)]);
}

#[test]
fn records_are_in_order_after_a_search() {
    let mut board = board_with(5, 5, &[(1, 0), (1, 1), (1, 2), (3, 4), (3, 3), (3, 2)]);
    let route = board.a_start_find();
    assert!(is_route_on(&board, &route));
    let goal = board.end_point();
    for x in 0..5usize {
        for y in 0..5usize {
            let p = Position::new(x, y);
            let node = board.node_at(p).unwrap();
            assert_eq!(node.pos, p);
            match node.g_cost {
                None => {
                    assert_eq!(node.h_cost, None);
                    assert_eq!(node.f_cost, None);
                    assert_eq!(node.comes_from, None);
                }
                Some(g) => {
                    assert!(board.is_walkable(p));
                    assert!(g >= 0);
                    assert_eq!(node.h_cost, Some(p.distance_to_other_position(goal)));
                    assert_eq!(node.f_cost, Some(g + p.distance_to_other_position(goal)));
                    match node.comes_from {
                        None => assert_eq!(p, board.start_point()),
                        Some(from) => {
                            assert_ne!(from, p);
                            let before = board.node_at(from).unwrap();
                            assert_eq!(Some(g), before.g_cost.map(|c| c + from.cost_to(p)));
                        }
                    }
                }
            }
        }
    }
    for i in 1..route.len() {
        assert_eq!(board.node_at(route[i]).unwrap().comes_from, Some(route[i - 1]));
    }
}

#[test]
fn blocked_cells_are_never_reached() {
    let mut board = board_with(4, 4, &[(1, 0), (1, 1), (2, 2)]);
    board.a_start_find();
    for p in board.obstacles() {
        assert_eq!(board.node_at(p).unwrap().g_cost, None);
    }
}

#[test]
fn found_path_costs_the_least_on_small_boards() {
    let mut seed: u64 = 0x2545_f491_4f6c_dd1d;
    let mut next = move || {
        seed ^= seed << 13;
        seed ^= seed >> 7;
        seed ^= seed << 17;
        seed
    };
    let mut reached = 0;
    let mut walled = 0;
    for round in 0..300 {
        let width = 1 + (next() % 6) as usize;
        let heigth = 1 + (next() % 6) as usize;
        let mut board = Board::new(heigth, width);
        let mut draw = |bound: usize| (next() % bound as u64) as usize;
        let start = Position::new(draw(width), draw(heigth));
        let goal = Position::new(draw(width), draw(heigth));
        assert_eq!(board.set_start_point(start), Ok(()));
        assert_eq!(board.set_end_point(goal), Ok(()));
        let density = round % 5;
        for x in 0..width {
            for y in 0..heigth {
                let p = Position::new(x, y);
                if p != start && p != goal && (next() % 10) < 2 * density as u64 {
                    assert_eq!(board.add_obstacle(p), Ok(()));
                }
            }
        }
        let route = board.a_start_find();
        match least_cost(&board) {
            None => {
                assert!(route.is_empty());
                walled += 1;
            }
            Some(least) => {
                assert!(is_route_on(&board, &route));
                assert_eq!(cost_of(&route), least);
                reached += 1;
            }
        }
        assert_eq!(board.a_start_find(), route);
    }
    assert!(reached > 50);
    assert!(walled > 10);
}
