use pathfinder::board::Board;
use pathfinder::node::Node;
use pathfinder::position::Position;
use pathfinder::terrain::{BoardError, MAX_CELLS};

fn blank(x: usize, y: usize) -> Node {
    Node::new(None, Position::new(x, y), None, None)
}

fn sorted(mut list: Vec<Position>) -> Vec<Position> {
    list.sort_by_key(|p| (p.x, p.y));
    list
}

#[test]
fn new_board_is_empty_from_corner_to_corner() {
    let board = Board::new(4, 6);
    assert_eq!(board.heigth(), 4);
    assert_eq!(board.width(), 6);
    assert_eq!(board.start_point(), Position::new(0, 0));
    assert_eq!(board.end_point(), Position::new(5, 3));
    assert!(board.obstacles().is_empty());
    assert!(board.path().is_empty());
    for x in 0..6usize {
        for y in 0..4usize {
            assert_eq!(board.node_at(Position::new(x, y)), Some(blank(x, y)));
            assert!(board.is_walkable(Position::new(x, y)));
        }
    }
}

#[test]
fn board_of_one_cell() {
    let board = Board::new(1, 1);
    assert_eq!(board.start_point(), Position::new(0, 0));
    assert_eq!(board.end_point(), Position::new(0, 0));
    assert_eq!(board.node_at(Position::new(0, 0)), Some(blank(0, 0)));
}

#[test]
fn largest_board_size_is_what_the_costs_allow() {
    assert_eq!(MAX_CELLS, 76_695_844);
    assert!(28 * (MAX_CELLS as i64) <= i32::MAX as i64);
    assert!(28 * (MAX_CELLS as i64 + 1) > i32::MAX as i64);
}

#[test]
fn node_at_knows_no_cell_outside_the_grid() {
    let board = Board::new(3, 5);
    assert_eq!(board.node_at(Position::new(5, 0)), None);
    assert_eq!(board.node_at(Position::new(0, 3)), None);
    assert_eq!(board.node_at(Position::new(3, 4)), None);
    assert_eq!(board.node_at(Position::new(4, 2)), Some(blank(4, 2)));
    assert!(!board.is_walkable(Position::new(5, 0)));
    assert!(!board.is_walkable(Position::new(0, 3)));
}

#[test]
fn switch_obstacle_blocks_and_unblocks() {
    let mut board = Board::new(5, 5);
    let cell = Position::new(2, 3);
    assert_eq!(board.switch_obstacle(&blank(2, 3)), Ok(()));
    assert_eq!(board.obstacles(), vec![cell]);
    assert!(!board.is_walkable(cell));
    assert_eq!(board.switch_obstacle(&blank(1, 1)), Ok(()));
    assert_eq!(sorted(board.obstacles()), vec![Position::new(1, 1), cell]);
    assert_eq!(board.switch_obstacle(&blank(2, 3)), Ok(()));
    assert_eq!(board.obstacles(), vec![Position::new(1, 1)]);
    assert!(board.is_walkable(cell));
}

#[test]
fn switch_obstacle_refuses_a_cell_outside_the_grid() {
    let mut board = Board::new(5, 4);
    assert_eq!(board.switch_obstacle(&blank(4, 0)), Err(BoardError::OutOfBounds));
    assert_eq!(board.switch_obstacle(&blank(0, 5)), Err(BoardError::OutOfBounds));
    assert_eq!(board.switch_obstacle(&blank(9, 9)), Err(BoardError::OutOfBounds));
    assert!(board.obstacles().is_empty());
}

#[test]
fn switch_obstacle_refuses_the_endpoints() {
    let mut board = Board::new(5, 5);
    assert_eq!(board.switch_obstacle(&blank(0, 0)), Err(BoardError::InvalidEndpoint));
    assert_eq!(board.switch_obstacle(&blank(4, 4)), Err(BoardError::InvalidEndpoint));
    assert!(board.obstacles().is_empty());
    assert!(board.is_walkable(Position::new(0, 0)));
    assert!(board.is_walkable(Position::new(4, 4)));
}

#[test]
fn a_refused_change_leaves_the_last_search() {
    let mut board = Board::new(3, 3);
    let route = board.a_start_find();
    assert_eq!(route.len(), 3);
    assert_eq!(board.switch_obstacle(&blank(0, 0)), Err(BoardError::InvalidEndpoint));
    assert_eq!(board.add_obstacle(Position::new(3, 3)), Err(BoardError::OutOfBounds));
    assert_eq!(board.set_obstacles(vec![Position::new(2, 2)]), Err(BoardError::InvalidEndpoint));
    assert_eq!(board.set_start_point(Position::new(0, 7)), Err(BoardError::OutOfBounds));
    assert_eq!(board.path(), route);
    assert_eq!(board.node_at(Position::new(1, 1)).unwrap().g_cost, Some(14));
}

#[test]
fn an_accepted_change_clears_the_last_search() {
    let mut board = Board::new(3, 3);
    assert_eq!(board.a_start_find().len(), 3);
    assert_eq!(board.switch_obstacle(&blank(0, 2)), Ok(()));
    assert!(board.path().is_empty());
    for x in 0..3usize {
        for y in 0..3usize {
            assert_eq!(board.node_at(Position::new(x, y)), Some(blank(x, y)));
        }
    }
    assert_eq!(board.a_start_find().len(), 3);
    board.clean_obstacles();
    assert!(board.path().is_empty());
    assert_eq!(board.node_at(Position::new(1, 1)), Some(blank(1, 1)));
}

#[test]
fn add_obstacle_blocks_a_cell_once() {
    let mut board = Board::new(4, 4);
    assert_eq!(board.add_obstacle(Position::new(1, 2)), Ok(()));
    assert_eq!(board.add_obstacle(Position::new(1, 2)), Ok(()));
    assert_eq!(board.obstacles(), vec![Position::new(1, 2)]);
    assert_eq!(board.add_obstacle(Position::new(0, 0)), Err(BoardError::InvalidEndpoint));
    assert_eq!(board.add_obstacle(Position::new(3, 3)), Err(BoardError::InvalidEndpoint));
    assert_eq!(board.add_obstacle(Position::new(4, 0)), Err(BoardError::OutOfBounds));
    assert_eq!(board.obstacles(), vec![Position::new(1, 2)]);
}

#[test]
fn set_obstacles_replaces_the_blocked_cells() {
    let mut board = Board::new(4, 4);
    assert_eq!(board.add_obstacle(Position::new(1, 2)), Ok(()));
    let list = vec![Position::new(2, 2), Position::new(3, 0), Position::new(2, 2)];
    assert_eq!(board.set_obstacles(list), Ok(()));
    assert_eq!(sorted(board.obstacles()), vec![Position::new(2, 2), Position::new(3, 0)]);
    assert!(board.is_walkable(Position::new(1, 2)));
    assert_eq!(board.set_obstacles(Vec::new()), Ok(()));
    assert!(board.obstacles().is_empty());
}

#[test]
fn set_obstacles_refuses_the_whole_list() {
    let mut board = Board::new(4, 4);
    assert_eq!(board.add_obstacle(Position::new(1, 2)), Ok(()));
    let outside = vec![Position::new(2, 2), Position::new(4, 1)];
    assert_eq!(board.set_obstacles(outside), Err(BoardError::OutOfBounds));
    let on_goal = vec![Position::new(2, 2), Position::new(3, 3)];
    assert_eq!(board.set_obstacles(on_goal), Err(BoardError::InvalidEndpoint));
    let on_start = vec![Position::new(0, 0)];
    assert_eq!(board.set_obstacles(on_start), Err(BoardError::InvalidEndpoint));
    let both = vec![Position::new(0, 0), Position::new(0, 9)];
    assert_eq!(board.set_obstacles(both), Err(BoardError::OutOfBounds));
    assert_eq!(board.obstacles(), vec![Position::new(1, 2)]);
}

#[test]
fn clean_obstacles_unblocks_every_cell() {
    let mut board = Board::new(4, 4);
    assert_eq!(board.set_obstacles(vec![Position::new(1, 1), Position::new(2, 1)]), Ok(()));
    board.clean_obstacles();
    assert!(board.obstacles().is_empty());
    assert!(board.is_walkable(Position::new(1, 1)));
}

#[test]
fn endpoints_can_be_moved_to_free_cells() {
    let mut board = Board::new(5, 5);
    assert_eq!(board.set_start_point(Position::new(2, 2)), Ok(()));
    assert_eq!(board.set_end_point(Position::new(0, 4)), Ok(()));
    assert_eq!(board.start_point(), Position::new(2, 2));
    assert_eq!(board.end_point(), Position::new(0, 4));
    assert_eq!(board.switch_obstacle(&blank(0, 0)), Ok(()));
    assert_eq!(board.switch_obstacle(&blank(2, 2)), Err(BoardError::InvalidEndpoint));
    assert_eq!(board.switch_obstacle(&blank(0, 4)), Err(BoardError::InvalidEndpoint));
}

#[test]
fn endpoints_cannot_leave_the_grid_or_stand_on_an_obstacle() {
    let mut board = Board::new(5, 5);
    assert_eq!(board.add_obstacle(Position::new(1, 3)), Ok(()));
    assert_eq!(board.set_start_point(Position::new(5, 0)), Err(BoardError::OutOfBounds));
    assert_eq!(board.set_end_point(Position::new(0, 5)), Err(BoardError::OutOfBounds));
    assert_eq!(board.set_start_point(Position::new(1, 3)), Err(BoardError::InvalidEndpoint));
    assert_eq!(board.set_end_point(Position::new(1, 3)), Err(BoardError::InvalidEndpoint));
    assert_eq!(board.start_point(), Position::new(0, 0));
    assert_eq!(board.end_point(), Position::new(4, 4));
}

#[test]
fn generated_obstacles_are_free_cells_of_the_grid() {
    let mut board = Board::new(6, 4);
    assert_eq!(board.add_obstacle(Position::new(1, 1)), Ok(()));
    board.generate_obstacles(12);
    let list = board.obstacles();
    assert!(list.contains(&Position::new(1, 1)));
    assert!(list.len() <= 13);
    for i in 0..list.len() {
        assert!(list[i].x < 4 && list[i].y < 6);
        assert_ne!(list[i], Position::new(0, 0));
        assert_ne!(list[i], Position::new(3, 5));
        for j in 0..i {
            assert_ne!(list[i], list[j]);
        }
    }
}

#[test]
fn generating_no_obstacles_blocks_nothing() {
    let mut board = Board::new(5, 5);
    assert_eq!(board.add_obstacle(Position::new(1, 1)), Ok(()));
    board.generate_obstacles(0);
    assert_eq!(board.obstacles(), vec![Position::new(1, 1)]);
    board.generate_obstacles(-3);
    assert_eq!(board.obstacles(), vec![Position::new(1, 1)]);
}

#[test]
fn generated_obstacles_fill_a_small_board() {
    let mut board = Board::new(2, 2);
    board.generate_obstacles(200);
    assert_eq!(sorted(board.obstacles()), vec![Position::new(0, 1), Position::new(1, 0)]);
}

#[test]
fn reset_path_twice_is_reset_path_once() {
    let mut once = Board::new(4, 5);
    let mut twice = Board::new(4, 5);
    assert_eq!(once.add_obstacle(Position::new(2, 1)), Ok(()));
    assert_eq!(twice.add_obstacle(Position::new(2, 1)), Ok(()));
    once.a_start_find();
    twice.a_start_find();
    once.reset_path();
    twice.reset_path();
    twice.reset_path();
    assert_eq!(once.path(), twice.path());
    assert!(once.path().is_empty());
    for x in 0..5usize {
        for y in 0..4usize {
            let p = Position::new(x, y);
            assert_eq!(once.node_at(p), twice.node_at(p));
            assert_eq!(once.node_at(p), Some(blank(x, y)));
        }
    }
    assert_eq!(once.obstacles(), vec![Position::new(2, 1)]);
    assert_eq!(once.a_start_find(), twice.a_start_find());
}

#[test]
fn board_can_be_printed() {
    let mut board = Board::new(2, 3);
    assert_eq!(board.add_obstacle(Position::new(1, 0)), Ok(()));
    let text = format!("{:?}", board);
    assert!(text.contains("Board"));
    assert!(text.contains("obstacles"));
}
