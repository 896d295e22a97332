use pathfinder::position::{Position, DIAGONAL_COST, STRAIGHT_COST};

#[test]
fn new_keeps_the_coordinates() {
    let p = Position::new(3, 7);
    assert_eq!(p.x, 3);
    assert_eq!(p.y, 7);
    assert_eq!(p, Position { x: 3, y: 7 });
}

#[test]
fn step_costs_are_ten_and_fourteen() {
    assert_eq!(STRAIGHT_COST, 10);
    assert_eq!(DIAGONAL_COST, 14);
    let p = Position::new(2, 2);
    assert_eq!(p.cost_to(Position::new(3, 2)), 10);
    assert_eq!(p.cost_to(Position::new(2, 1)), 10);
    assert_eq!(p.cost_to(Position::new(3, 3)), 14);
    assert_eq!(p.cost_to(Position::new(1, 3)), 14);
}

#[test]
fn distance_to_itself_is_zero() {
    let p = Position::new(4, 9);
    assert_eq!(p.distance_to_other_position(p), 0);
}

#[test]
fn distance_along_a_row_or_a_column() {
    let p = Position::new(1, 1);
    assert_eq!(p.distance_to_other_position(Position::new(6, 1)), 50);
    assert_eq!(p.distance_to_other_position(Position::new(1, 4)), 30);
    assert_eq!(Position::new(6, 1).distance_to_other_position(p), 50);
}

#[test]
fn distance_along_a_diagonal() {
    let p = Position::new(0, 0);
    assert_eq!(p.distance_to_other_position(Position::new(4, 4)), 56);
    assert_eq!(Position::new(5, 0).distance_to_other_position(Position::new(2, 3)), 42);
}

#[test]
fn distance_mixes_diagonal_and_straight_steps() {
    let p = Position::new(0, 0);
    assert_eq!(p.distance_to_other_position(Position::new(3, 1)), 34);
    assert_eq!(p.distance_to_other_position(Position::new(1, 3)), 34);
    assert_eq!(Position::new(7, 2).distance_to_other_position(Position::new(2, 4)), 58);
}

#[test]
fn distance_is_symmetric() {
    for ax in 0..5usize {
        for ay in 0..5usize {
            for bx in 0..5usize {
                for by in 0..5usize {
                    let a = Position::new(ax, ay);
                    let b = Position::new(bx, by);
                    assert_eq!(a.distance_to_other_position(b), b.distance_to_other_position(a));
                }
            }
        }
    }
}

#[test]
fn distance_never_falls_by_more_than_a_step() {
    let goal = Position::new(3, 5);
    for x in 0..7usize {
        for y in 0..7usize {
            let a = Position::new(x, y);
            for b in a.neighbors(7, 7) {
                assert!(a.distance_to_other_position(goal)
                    <= a.cost_to(b) + b.distance_to_other_position(goal));
            }
        }
    }
}

#[test]
fn neighbors_of_an_inner_cell() {
    let around = Position::new(2, 2).neighbors(5, 5);
    assert_eq!(around.len(), 8);
    for x in 1..4usize {
        for y in 1..4usize {
            let q = Position::new(x, y);
            assert_eq!(around.contains(&q), !(x == 2 && y == 2));
        }
    }
}

#[test]
fn neighbors_of_a_corner_and_of_an_edge() {
    let corner = Position::new(0, 0).neighbors(5, 5);
    assert_eq!(corner.len(), 3);
    assert!(corner.contains(&Position::new(1, 0)));
    assert!(corner.contains(&Position::new(0, 1)));
    assert!(corner.contains(&Position::new(1, 1)));
    let far_corner = Position::new(4, 4).neighbors(5, 5);
    assert_eq!(far_corner.len(), 3);
    let edge = Position::new(2, 0).neighbors(5, 5);
    assert_eq!(edge.len(), 5);
    assert!(!edge.contains(&Position::new(2, 0)));
}

#[test]
fn neighbors_are_clipped_to_the_grid() {
    assert_eq!(Position::new(0, 0).neighbors(1, 1).len(), 0);
    assert_eq!(Position::new(0, 0).neighbors(0, 0).len(), 0);
    assert_eq!(Position::new(0, 0).neighbors(2, 1), vec![Position::new(1, 0)]);
    let outside = Position::new(5, 2).neighbors(5, 5);
    assert_eq!(outside.len(), 3);
    assert!(outside.contains(&Position::new(4, 1)));
    assert!(outside.contains(&Position::new(4, 2)));
    assert!(outside.contains(&Position::new(4, 3)));
    assert_eq!(Position::new(usize::MAX, usize::MAX).neighbors(5, 5).len(), 0);
}

#[test]
fn neighbors_name_no_cell_twice() {
    for x in 0..4usize {
        for y in 0..3usize {
            let around = Position::new(x, y).neighbors(4, 3);
            for i in 0..around.len() {
                for j in 0..i {
                    assert_ne!(around[i], around[j]);
                }
            }
        }
    }
}

#[test]
fn find_in_gives_the_place() {
    let list = vec![Position::new(1, 1), Position::new(2, 3), Position::new(0, 4)];
    assert_eq!(Position::new(2, 3).find_in(&list), Some(1));
    assert_eq!(Position::new(1, 1).find_in(&list), Some(0));
    assert_eq!(Position::new(3, 2).find_in(&list), None);
    assert_eq!(Position::new(0, 0).find_in(&Vec::new()), None);
}

#[test]
fn random_positions_lie_on_the_grid() {
    for _ in 0..200 {
        let p = Position::generate_random_position(3, 7);
        assert!(p.x < 7);
        assert!(p.y < 3);
    }
    let only = Position::generate_random_position(1, 1);
    assert_eq!(only, Position::new(0, 0));
}

#[test]
fn random_positions_differ() {
    let first = Position::generate_random_position(1000, 1000);
    let mut other = false;
    for _ in 0..50 {
        if Position::generate_random_position(1000, 1000) != first {
            other = true;
        }
    }
    assert!(other);
}
