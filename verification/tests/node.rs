use pathfinder::node::{get_f_cost, Node};
use pathfinder::position::Position;

#[test]
fn f_cost_is_the_sum_where_both_costs_are_known() {
    assert_eq!(get_f_cost(Some(10), Some(24)), Some(34));
    assert_eq!(get_f_cost(Some(0), Some(0)), Some(0));
    assert_eq!(get_f_cost(None, Some(24)), None);
    assert_eq!(get_f_cost(Some(10), None), None);
    assert_eq!(get_f_cost(None, None), None);
}

#[test]
fn new_computes_the_priority() {
    let from = Position::new(0, 0);
    let node = Node::new(Some(from), Position::new(1, 1), Some(14), Some(42));
    assert_eq!(node.comes_from, Some(from));
    assert_eq!(node.pos, Position::new(1, 1));
    assert_eq!(node.g_cost, Some(14));
    assert_eq!(node.h_cost, Some(42));
    assert_eq!(node.f_cost, Some(56));
    let blank = Node::new(None, Position::new(2, 0), None, None);
    assert_eq!(blank.f_cost, None);
    assert_eq!(blank.g_cost, None);
    assert_eq!(blank.h_cost, None);
    assert_eq!(blank.comes_from, None);
}

#[test]
fn walkable_means_not_an_obstacle() {
    let obstacles = vec![Position::new(1, 1), Position::new(3, 0)];
    assert!(!Node::new(None, Position::new(1, 1), None, None).walkable(&obstacles));
    assert!(!Node::new(None, Position::new(3, 0), None, None).walkable(&obstacles));
    assert!(Node::new(None, Position::new(0, 3), None, None).walkable(&obstacles));
    assert!(Node::new(None, Position::new(1, 1), None, None).walkable(&Vec::new()));
}

#[test]
fn reset_forgets_everything_but_the_cell() {
    let mut node = Node::new(Some(Position::new(0, 0)), Position::new(1, 0), Some(10), Some(30));
    node.reset();
    assert_eq!(node, Node::new(None, Position::new(1, 0), None, None));
}

#[test]
fn relax_takes_up_the_first_way() {
    let goal = Position::new(4, 4);
    let mut node = Node::new(None, Position::new(1, 1), None, None);
    assert!(node.relax(Position::new(0, 0), 14, goal));
    assert_eq!(node.comes_from, Some(Position::new(0, 0)));
    assert_eq!(node.g_cost, Some(14));
    assert_eq!(node.h_cost, Some(42));
    assert_eq!(node.f_cost, Some(56));
    assert_eq!(node.pos, Position::new(1, 1));
}

#[test]
fn relax_takes_up_only_a_cheaper_way() {
    let goal = Position::new(4, 4);
    let mut node = Node::new(None, Position::new(1, 1), None, None);
    assert!(node.relax(Position::new(1, 0), 20, goal));
    let kept = node;
    assert!(!node.relax(Position::new(0, 1), 20, goal));
    assert_eq!(node, kept);
    assert!(!node.relax(Position::new(0, 1), 24, goal));
    assert_eq!(node, kept);
    assert!(node.relax(Position::new(0, 0), 14, goal));
    assert_eq!(node.comes_from, Some(Position::new(0, 0)));
    assert_eq!(node.g_cost, Some(14));
    assert_eq!(node.f_cost, Some(56));
}

#[test]
fn relax_keeps_the_first_estimate() {
    let mut node = Node::new(None, Position::new(1, 1), None, Some(7));
    assert!(node.relax(Position::new(0, 0), 14, Position::new(4, 4)));
    assert_eq!(node.h_cost, Some(7));
    assert_eq!(node.f_cost, Some(21));
}

#[test]
fn order_goes_by_priority_first() {
    let a = Node::new(None, Position::new(5, 5), Some(10), Some(20));
    let b = Node::new(None, Position::new(0, 0), Some(10), Some(21));
    assert!(a.goes_before(&b));
    assert!(!b.goes_before(&a));
}

#[test]
fn order_breaks_ties_by_estimate_then_row_then_column() {
    let a = Node::new(None, Position::new(5, 5), Some(20), Some(10));
    let b = Node::new(None, Position::new(0, 0), Some(10), Some(20));
    assert!(a.goes_before(&b));
    assert!(!b.goes_before(&a));
    let upper = Node::new(None, Position::new(4, 1), Some(10), Some(20));
    let lower = Node::new(None, Position::new(0, 2), Some(10), Some(20));
    assert!(upper.goes_before(&lower));
    assert!(!lower.goes_before(&upper));
    let left = Node::new(None, Position::new(1, 3), Some(10), Some(20));
    let right = Node::new(None, Position::new(2, 3), Some(10), Some(20));
    assert!(left.goes_before(&right));
    assert!(!right.goes_before(&left));
    assert!(!left.goes_before(&left));
}
